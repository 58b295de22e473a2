//! The backends that can run a command.

pub mod nix;

pub use self::nix::Nix;
pub use self::nix::RemoteProvider as NixRemoteProvider;
pub use self::nix::RemoteProviderView as NixRemoteProviderView;
