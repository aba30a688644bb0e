//! Verified core of an Android SDK provider: reading Google's SDK repository
//! index, resolving real packages from an `sdkmanager --list` listing,
//! parsing `avdmanager` output and the `avd` command line.

pub mod avd;
pub mod config;
pub mod install;
pub mod numbers;
pub mod provider;
pub mod text;
pub mod versions;
