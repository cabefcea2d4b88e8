//! Identifiers of the CLI applications the desktop companion manages.
use vstd::prelude::*;

verus! {

/// The managed applications. The two Anthropic clients are named by vendor
/// here; the remaining variants carry their product names.
#[derive(Debug, Clone, Copy, PartialEq, Eq, Hash, Structural)]
pub enum AppType {
    AnthropicCli,
    AnthropicDesktop,
    Codex,
    Gemini,
    GrokBuild,
    OpenCode,
    OpenClaw,
    Hermes,
    Zcode,
    Dsh,
    WorkBuddy,
}

} // verus!
