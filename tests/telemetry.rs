use opz::telemetry::{pick_git_commit, sampler_kind, trace_args_text, SamplerKind};

#[test]
fn sampler_names_ignore_ascii_case() {
    assert_eq!(sampler_kind("always_on"), SamplerKind::AlwaysOn);
    assert_eq!(sampler_kind("ALWAYS_OFF"), SamplerKind::AlwaysOff);
    assert_eq!(sampler_kind("TraceIdRatio"), SamplerKind::TraceIdRatio);
    assert_eq!(sampler_kind("parentbased_always_on"), SamplerKind::ParentBasedAlwaysOn);
    assert_eq!(sampler_kind("ParentBased_Always_Off"), SamplerKind::ParentBasedAlwaysOff);
    assert_eq!(
        sampler_kind("PARENTBASED_TRACEIDRATIO"),
        SamplerKind::ParentBasedTraceIdRatio
    );
    assert_eq!(sampler_kind("always"), SamplerKind::Unsupported);
    assert_eq!(sampler_kind(""), SamplerKind::Unsupported);
}

#[test]
fn git_commit_preference() {
    assert_eq!(pick_git_commit(Some("  abc123 \n"), Some("zzz")), "abc123");
    assert_eq!(pick_git_commit(Some("   "), Some("def456\n")), "def456");
    assert_eq!(pick_git_commit(None, Some("  \n")), "unknown");
    assert_eq!(pick_git_commit(None, None), "unknown");
}

#[test]
fn traced_arguments_skip_the_program_and_mask_secrets() {
    let args: Vec<String> = vec!["opz".into(), "token=abc".into(), "op://v/i/f".into()];
    assert_eq!(trace_args_text(&args), "token=*** op://***");
    assert_eq!(trace_args_text(&vec![]), "");
    assert_eq!(trace_args_text(&vec!["opz".to_string()]), "");
}
