//! Which sandbox backend a configuration asks for.

use vstd::prelude::*;

verus! {

/// The configured sandbox backend.
#[derive(Clone, Debug)]
pub enum SandboxRuntimeConfig {
    /// Run on the host itself, without isolation.
    Dangerous,
    /// Run in Firecracker virtual machines that keep their state under
    /// this directory.
    Firecracker { state_dir: String },
    /// Run on Fly sprites.
    FlySprite,
}

/// The provider to build.
#[derive(Clone, Debug)]
pub enum ProviderChoice {
    DangerousHost,
    Firecracker { state_dir: String },
}

/// Why no provider can be built.
#[derive(Clone, Copy, Debug)]
pub enum SandboxError {
    Unsupported(&'static str),
}

/// Chooses the sandbox provider for a configuration. The host and the
/// Firecracker backends have providers; the Fly sprite backend has none
/// yet.
pub fn build_provider(config: SandboxRuntimeConfig) -> (r: Result<ProviderChoice, SandboxError>)
    ensures
        match config {
            SandboxRuntimeConfig::Dangerous => r matches Ok(ProviderChoice::DangerousHost),
            SandboxRuntimeConfig::Firecracker { state_dir } => r matches Ok(
                ProviderChoice::Firecracker { state_dir: dir },
            ) && dir == state_dir,
            SandboxRuntimeConfig::FlySprite => r matches Err(SandboxError::Unsupported(why))
                && why@ == "fly sprite backend not yet implemented"@,
        },
{
    match config {
        SandboxRuntimeConfig::Dangerous => Ok(ProviderChoice::DangerousHost),
        SandboxRuntimeConfig::Firecracker { state_dir } => Ok(
            ProviderChoice::Firecracker { state_dir },
        ),
        SandboxRuntimeConfig::FlySprite => Err(
            SandboxError::Unsupported("fly sprite backend not yet implemented"),
        ),
    }
}

} // verus!
