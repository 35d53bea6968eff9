use zap_engine::acquire::{step, AcquireAction, AcquireError, AcquireEvent, AcquireState};
use zap_engine::build_context::{BuildAction, BuildContext};
use zap_engine::build_rules::{BuildRule, Library};
use zap_engine::errors::BuildError;
use zap_engine::model::Label;
use zap_engine::paths::FilePath;
use zap_engine::toolchain_manager::ToolchainManager;
use zap_engine::toolchains::{Archive, Toolchain};

fn p(s: &str) -> FilePath {
    FilePath::new(s)
}

fn lbl(s: &str) -> Label {
    Label::new(s.to_string())
}

fn bytes_of(f: &FilePath) -> Vec<u8> {
    f.bytes().clone()
}

fn lib(name: &str, sources: &[&str], headers: &[&str], deps: &[&str]) -> Library {
    Library::new(lbl(name))
        .set_sources(sources.iter().map(|s| p(s)).collect())
        .set_headers(headers.iter().map(|s| p(s)).collect())
        .set_dependencies(deps.iter().map(|s| lbl(s)).collect())
}

fn toolchain() -> Toolchain {
    let rule = BuildRule::Library(lib("erlang", &[], &[], &[]));
    let archive = Archive::default()
        .with_url("https://example.test/otp.tar.gz".to_string())
        .with_sha1("aaf4c61ddcc5e8a2dabede0f3b482cd9aea9434d".to_string());
    Toolchain::new(rule, archive, p("cache/erlang"))
}

fn ctx_with(rules: Vec<BuildRule>, tc: Option<Toolchain>) -> BuildContext {
    BuildContext::new(p("out"), rules, tc).expect("distinct rule names")
}

#[test]
fn with_extension_rewrites_suffix() {
    assert_eq!(bytes_of(&p("a.erl").with_extension(&p("beam"))), b"a.beam".to_vec());
}

#[test]
fn with_extension_keeps_directory() {
    assert_eq!(bytes_of(&p("src/a.erl").with_extension(&p("beam"))), b"src/a.beam".to_vec());
}

#[test]
fn with_extension_appends_when_no_extension() {
    assert_eq!(bytes_of(&p("Makefile").with_extension(&p("beam"))), b"Makefile.beam".to_vec());
}

#[test]
fn with_extension_ignores_dot_in_directory() {
    assert_eq!(bytes_of(&p("v1.2/main").with_extension(&p("beam"))), b"v1.2/main.beam".to_vec());
}

#[test]
fn with_extension_leaves_hidden_file_name() {
    assert_eq!(bytes_of(&p(".hidden").with_extension(&p("beam"))), b".hidden.beam".to_vec());
}

#[test]
fn join_inserts_separator() {
    assert_eq!(bytes_of(&p("out").join(&p("a.beam"))), b"out/a.beam".to_vec());
}

#[test]
fn library_builders_and_getters() {
    let l = lib("mylib", &["a.erl"], &["a.hrl"], &["dep"]);
    assert_eq!(l.name().as_string(), "mylib");
    assert_eq!(l.sources().len(), 1);
    assert_eq!(bytes_of(&l.sources()[0]), b"a.erl".to_vec());
    assert_eq!(bytes_of(&l.headers()[0]), b"a.hrl".to_vec());
    assert_eq!(l.dependencies()[0].as_string(), "dep");
    assert!(!l.has_changed());
    let renamed = l.set_name(lbl("other"));
    assert_eq!(renamed.name().as_string(), "other");
    assert_eq!(l.name().as_string(), "mylib");
}

#[test]
fn inputs_are_headers_then_sources() {
    let l = lib("mylib", &["a.erl", "b.erl"], &["h.hrl"], &[]);
    let ins = l.inputs();
    let got: Vec<Vec<u8>> = ins.iter().map(bytes_of).collect();
    assert_eq!(got, vec![b"h.hrl".to_vec(), b"a.erl".to_vec(), b"b.erl".to_vec()]);
}

#[test]
fn outputs_rewrite_sources_and_pass_headers() {
    let l = lib("mylib", &["a.erl"], &["h.hrl"], &[]);
    let ctx = ctx_with(vec![BuildRule::Library(l.clone())], None);
    let arts = l.outputs(&ctx);
    assert_eq!(arts.len(), 1);
    let outs: Vec<Vec<u8>> = arts[0].outputs.iter().map(bytes_of).collect();
    assert_eq!(outs, vec![b"a.beam".to_vec(), b"h.hrl".to_vec()]);
}

#[test]
fn header_only_library_artifact_is_passthrough() {
    let l = lib("iface", &[], &["one.hrl", "two.hrl"], &[]);
    let ctx = ctx_with(vec![BuildRule::Library(l.clone())], None);
    let arts = l.outputs(&ctx);
    assert_eq!(arts.len(), 1);
    let outs: Vec<Vec<u8>> = arts[0].outputs.iter().map(bytes_of).collect();
    assert_eq!(outs, vec![b"one.hrl".to_vec(), b"two.hrl".to_vec()]);
}

#[test]
fn header_only_build_copies_and_never_compiles() {
    let l = lib("iface", &[], &["one.hrl"], &[]);
    let mut ctx = ctx_with(vec![BuildRule::Library(l.clone())], None);
    l.build(&mut ctx).expect("header-only build succeeds without a toolchain");
    let actions = ctx.actions();
    assert_eq!(actions.len(), 1);
    match &actions[0] {
        BuildAction::Copy { from, to } => {
            assert_eq!(bytes_of(from), b"one.hrl".to_vec());
            assert_eq!(bytes_of(to), b"out/one.hrl".to_vec());
        },
        _ => panic!("expected only a copy"),
    }
}

#[test]
fn build_without_toolchain_is_resolution_error() {
    let l = lib("mylib", &["a.erl"], &[], &[]);
    let mut ctx = ctx_with(vec![BuildRule::Library(l.clone())], None);
    match l.build(&mut ctx) {
        Err(BuildError::Resolution { label }) => assert_eq!(label.as_string(), "mylib"),
        _ => panic!("expected a resolution error for the missing toolchain"),
    }
}

#[test]
fn duplicate_rule_names_are_refused() {
    let a = BuildRule::Library(lib("same", &[], &[], &[]));
    let b = BuildRule::Library(lib("same", &[], &[], &[]));
    assert!(BuildContext::new(p("out"), vec![a, b], None).is_none());
}

#[test]
fn declare_output_is_idempotent() {
    let mut ctx = ctx_with(vec![], None);
    let q1 = ctx.declare_output(p("a.beam"));
    let q2 = ctx.declare_output(p("a.beam"));
    assert_eq!(bytes_of(&q1), b"out/a.beam".to_vec());
    assert_eq!(bytes_of(&q1), bytes_of(&q2));
    assert_eq!(ctx.declared().len(), 1);
}

#[test]
fn transitive_dependencies_orders_deps_first() {
    let a = BuildRule::Library(lib("a", &["a.erl"], &[], &[]));
    let b = BuildRule::Library(lib("b", &["b.erl"], &[], &["a"]));
    let c = BuildRule::Library(lib("c", &["c.erl"], &[], &["b"]));
    let ctx = ctx_with(vec![a, b, c.clone()], None);
    let order = ctx.transitive_dependencies(&c).expect("acyclic graph resolves");
    let names: Vec<String> = order.iter().map(|r| r.name().as_string().clone()).collect();
    assert_eq!(names, vec!["a".to_string(), "b".to_string()]);
}

#[test]
fn transitive_dependencies_handles_diamond() {
    let base = BuildRule::Library(lib("base", &[], &[], &[]));
    let left = BuildRule::Library(lib("left", &[], &[], &["base"]));
    let right = BuildRule::Library(lib("right", &[], &[], &["base"]));
    let top = BuildRule::Library(lib("top", &[], &[], &["left", "right"]));
    let ctx = ctx_with(vec![base, left, right, top.clone()], None);
    let order = ctx.transitive_dependencies(&top).expect("diamond resolves");
    let names: Vec<String> = order.iter().map(|r| r.name().as_string().clone()).collect();
    assert_eq!(names.len(), 3);
    assert_eq!(names[0], "base");
    assert!(names.contains(&"left".to_string()));
    assert!(names.contains(&"right".to_string()));
}

#[test]
fn mutual_dependency_is_a_cycle_error() {
    let a = BuildRule::Library(lib("a", &[], &[], &["b"]));
    let b = BuildRule::Library(lib("b", &[], &[], &["a"]));
    let ctx = ctx_with(vec![a.clone(), b], None);
    match ctx.transitive_dependencies(&a) {
        Err(BuildError::Cycle { labels }) => assert!(!labels.is_empty()),
        _ => panic!("expected a cycle error"),
    }
}

#[test]
fn self_dependency_is_a_cycle_error() {
    let a = BuildRule::Library(lib("a", &[], &[], &["a"]));
    let ctx = ctx_with(vec![a.clone()], None);
    assert!(matches!(ctx.transitive_dependencies(&a), Err(BuildError::Cycle { .. })));
}

#[test]
fn missing_dependency_is_a_resolution_error() {
    let a = BuildRule::Library(lib("a", &[], &[], &["ghost"]));
    let ctx = ctx_with(vec![a.clone()], None);
    match ctx.transitive_dependencies(&a) {
        Err(BuildError::Resolution { label }) => assert_eq!(label.as_string(), "ghost"),
        _ => panic!("expected a resolution error"),
    }
}

#[test]
fn build_two_rules_end_to_end() {
    let a = BuildRule::Library(lib("a", &["a.erl"], &[], &[]));
    let b = BuildRule::Library(lib("b", &["b.erl"], &[], &["a"]));
    let mut ctx = ctx_with(vec![a, b.clone()], Some(toolchain()));
    ctx.run_build(&b).expect("building b builds a first");

    let declared: Vec<Vec<u8>> = ctx.declared().iter().map(bytes_of).collect();
    assert_eq!(declared, vec![b"a.beam".to_vec(), b"b.beam".to_vec()]);

    let actions = ctx.actions();
    let compiles: Vec<&BuildAction> = actions
        .iter()
        .filter(|a| matches!(a, BuildAction::Compile { .. }))
        .collect();
    assert_eq!(compiles.len(), 2);
    match compiles[0] {
        BuildAction::Compile { sources, dest, .. } => {
            assert_eq!(bytes_of(&sources[0]), b"a.erl".to_vec());
            assert_eq!(bytes_of(dest), b"out/a.beam".to_vec());
        },
        _ => unreachable!(),
    }
    match compiles[1] {
        BuildAction::Compile { sources, headers, outputs, dest } => {
            assert_eq!(bytes_of(&sources[0]), b"b.erl".to_vec());
            assert_eq!(bytes_of(dest), b"out/b.beam".to_vec());
            let header_set: Vec<Vec<u8>> = headers.iter().map(bytes_of).collect();
            assert!(header_set.contains(&b"out/a.erl".to_vec()));
            let outs: Vec<Vec<u8>> = outputs.iter().map(bytes_of).collect();
            assert!(outs.contains(&b"out/b.beam".to_vec()));
            assert!(outs.contains(&b"out/a.beam".to_vec()));
        },
        _ => unreachable!(),
    }
}

#[test]
fn archive_builders_and_getters() {
    let a = Archive::default()
        .with_url("https://example.test/x.tar.gz".to_string())
        .with_sha1("abc".to_string())
        .with_prefix("otp-22".to_string());
    assert_eq!(a.url(), "https://example.test/x.tar.gz");
    assert_eq!(a.sha1(), "abc");
    assert_eq!(a.prefix(), "otp-22");
    assert_eq!(a.file_name(), "toolchain.tar.gz");
}

#[test]
fn checksum_accepts_matching_digest() {
    let a = Archive::default().with_sha1("aaf4c61ddcc5e8a2dabede0f3b482cd9aea9434d".to_string());
    assert!(a.checksum_bytes(&b"hello".to_vec()));
}

#[test]
fn checksum_rejects_wrong_digest() {
    let a = Archive::default().with_sha1("aaf4c61ddcc5e8a2dabede0f3b482cd9aea9434d".to_string());
    assert!(!a.checksum_bytes(&b"hello tampered".to_vec()));
}

#[test]
fn checksum_comparison_is_case_sensitive() {
    let a = Archive::default().with_sha1("AAF4C61DDCC5E8A2DABEDE0F3B482CD9AEA9434D".to_string());
    assert!(!a.checksum_bytes(&b"hello".to_vec()));
}

#[test]
fn acquire_cache_hit_skips_download() {
    let mut actions = Vec::new();
    let (s1, a1) = step(AcquireState::Start, AcquireEvent::Begin);
    actions.push(a1);
    let (s2, a2) = step(s1, AcquireEvent::CacheProbed(true));
    actions.push(a2);
    let (s3, a3) = step(s2, AcquireEvent::Checksummed(true));
    actions.push(a3);
    let (_s4, a4) = step(s3, AcquireEvent::Unpacked(true));
    actions.push(a4);
    assert_eq!(
        actions,
        vec![
            AcquireAction::ProbeCache,
            AcquireAction::Checksum,
            AcquireAction::Unpack,
            AcquireAction::Succeed,
        ]
    );
    assert!(!actions.contains(&AcquireAction::Download));
}

#[test]
fn acquire_cache_miss_downloads_then_verifies() {
    let (s1, _) = step(AcquireState::Start, AcquireEvent::Begin);
    let (s2, a2) = step(s1, AcquireEvent::CacheProbed(false));
    assert_eq!(a2, AcquireAction::Download);
    let (_s3, a3) = step(s2, AcquireEvent::Downloaded(true));
    assert_eq!(a3, AcquireAction::Checksum);
}

#[test]
fn acquire_checksum_mismatch_refuses_unpack() {
    let (s1, _) = step(AcquireState::Start, AcquireEvent::Begin);
    let (s2, _) = step(s1, AcquireEvent::CacheProbed(true));
    let (s3, a3) = step(s2, AcquireEvent::Checksummed(false));
    assert_eq!(a3, AcquireAction::Fail(AcquireError::ChecksumMismatch));
    assert_eq!(s3, AcquireState::Failed(AcquireError::ChecksumMismatch));
    let (_s4, a4) = step(s3, AcquireEvent::Unpacked(true));
    assert_eq!(a4, AcquireAction::Fail(AcquireError::ChecksumMismatch));
}

#[test]
fn acquire_unreadable_archive_is_a_distinct_hard_error() {
    let (s1, _) = step(AcquireState::Start, AcquireEvent::Begin);
    let (s2, _) = step(s1, AcquireEvent::CacheProbed(true));
    let (s3, a3) = step(s2, AcquireEvent::ChecksumUnreadable);
    assert_eq!(a3, AcquireAction::Fail(AcquireError::ArchiveUnreadable));
    assert_eq!(s3, AcquireState::Failed(AcquireError::ArchiveUnreadable));
    let (_s4, a4) = step(s3, AcquireEvent::Unpacked(true));
    assert_eq!(a4, AcquireAction::Fail(AcquireError::ArchiveUnreadable));
}

#[test]
fn cycle_error_reports_the_stuck_rules() {
    let a = BuildRule::Library(lib("a", &[], &[], &["b"]));
    let b = BuildRule::Library(lib("b", &[], &[], &["a"]));
    let ctx = ctx_with(vec![a.clone(), b], None);
    match ctx.transitive_dependencies(&a) {
        Err(BuildError::Cycle { labels }) => {
            let mut names: Vec<String> = labels.iter().map(|l| l.as_string().clone()).collect();
            names.sort();
            assert_eq!(names, vec!["a".to_string(), "b".to_string()]);
        },
        _ => panic!("expected a cycle error"),
    }
}

#[test]
fn run_build_refuses_a_cycle() {
    let a = BuildRule::Library(lib("a", &[], &[], &["b"]));
    let b = BuildRule::Library(lib("b", &[], &[], &["a"]));
    let mut ctx = ctx_with(vec![a.clone(), b], None);
    assert!(matches!(ctx.run_build(&a), Err(BuildError::Cycle { .. })));
    assert!(ctx.actions().is_empty());
}

#[test]
fn targets_enumerates_every_toolchain() {
    let mut mgr = ToolchainManager::new();
    mgr.register_archive(lbl("erlang"), Archive::default());
    mgr.register_archive(lbl("elixir"), Archive::default());
    mgr.register_toolchain(BuildRule::Library(lib("erlang", &[], &[], &[])), p("cache/erlang"));
    mgr.register_toolchain(BuildRule::Library(lib("elixir", &[], &[], &[])), p("cache/elixir"));
    let mut names: Vec<String> =
        mgr.targets().iter().map(|t| t.name().as_string().clone()).collect();
    names.sort();
    assert_eq!(names, vec!["elixir".to_string(), "erlang".to_string()]);
}

#[test]
fn acquire_failed_download_stops() {
    let (s1, _) = step(AcquireState::Start, AcquireEvent::Begin);
    let (s2, _) = step(s1, AcquireEvent::CacheProbed(false));
    let (s3, a3) = step(s2, AcquireEvent::Downloaded(false));
    assert_eq!(a3, AcquireAction::Fail(AcquireError::FetchFailed));
    assert_eq!(s3, AcquireState::Failed(AcquireError::FetchFailed));
}

#[test]
fn acquire_out_of_order_event_fails() {
    let (s, a) = step(AcquireState::Start, AcquireEvent::Unpacked(true));
    assert_eq!(a, AcquireAction::Fail(AcquireError::OutOfOrder));
    assert_eq!(s, AcquireState::Failed(AcquireError::OutOfOrder));
}

#[test]
fn manager_registers_archive_then_toolchain() {
    let mut mgr = ToolchainManager::new();
    let archive = Archive::default().with_url("https://example.test/otp.tar.gz".to_string());
    mgr.register_archive(lbl("erlang"), archive);
    let rule = BuildRule::Library(lib("erlang", &[], &[], &[]));
    mgr.register_toolchain(rule, p("cache/erlang"));
    let tc = mgr.get(&lbl("erlang")).expect("toolchain resolved");
    assert_eq!(tc.archive().url(), "https://example.test/otp.tar.gz");
    assert_eq!(bytes_of(&tc.cache_root()), b"cache/erlang".to_vec());
    assert_eq!(mgr.toolchains().len(), 1);
    assert_eq!(mgr.archives().len(), 1);
    assert_eq!(mgr.targets().len(), 1);
    assert_eq!(mgr.targets()[0].name().as_string(), "erlang");
}

#[test]
fn manager_skips_toolchain_without_archive() {
    let mut mgr = ToolchainManager::new();
    let rule = BuildRule::Library(lib("erlang", &[], &[], &[]));
    mgr.register_toolchain(rule, p("cache/erlang"));
    assert!(mgr.get(&lbl("erlang")).is_none());
    assert!(mgr.toolchains().is_empty());
}
