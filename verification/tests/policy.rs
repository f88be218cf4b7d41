use systole::capability::{Capability, Decision, Policy};

#[test]
fn policy_table_allows_prompts_denies_and_unknown_actors_deny_all() {
    // cli_local: allow project.read / project.write, prompt destructive.delete,
    // deny everything else.
    assert_eq!(Policy::resolve("cli_local", Capability::ProjectRead), Decision::Allow);
    assert_eq!(Policy::resolve("cli_local", Capability::ProjectWrite), Decision::Allow);
    assert_eq!(Policy::resolve("cli_local", Capability::DestructiveDelete), Decision::Prompt);
    for cap in [
        Capability::FilesystemRead,
        Capability::FilesystemWrite,
        Capability::NetworkCall,
        Capability::SecretsRead,
        Capability::AssetImport,
        Capability::AssetGenerateRemote,
        Capability::RuntimeLaunch,
        Capability::BundleWrite,
    ] {
        assert_eq!(Policy::resolve("cli_local", cap), Decision::Deny, "{cap:?} must be denied for cli_local");
    }
    // An unknown actor is deny-all, even for project.read.
    assert_eq!(Policy::resolve("nobody", Capability::ProjectRead), Decision::Deny);
}

#[test]
fn an_unknown_actor_is_denied_every_capability() {
    for cap in [Capability::ProjectRead, Capability::ProjectWrite, Capability::DestructiveDelete] {
        assert_eq!(Policy::resolve("cli_local ", cap), Decision::Deny);
        assert_eq!(Policy::resolve("", cap), Decision::Deny);
    }
}

#[test]
fn capabilities_render_their_dotted_names() {
    assert_eq!(Capability::ProjectRead.as_str(), "project.read");
    assert_eq!(Capability::DestructiveDelete.as_str(), "destructive.delete");
    assert_eq!(Capability::AssetGenerateRemote.as_str(), "asset.generate-remote");
}
