//! The Android tool provider's identity and environment.

use vstd::prelude::*;

verus! {

/// avm's Android SDK provider.
#[derive(Debug, Default)]
pub struct AndroidProvider;

impl AndroidProvider {
    pub fn new() -> (p: Self)
        ensures
            p == AndroidProvider,
    {
        AndroidProvider
    }

    /// The tool name the provider answers to.
    pub fn name(&self) -> (n: &'static str)
        ensures
            n@ == "android"@,
    {
        "android"
    }

    /// The environment a selected version exports: `ANDROID_HOME` and
    /// `ANDROID_SDK_ROOT`, both the version's SDK root `sdk`.
    pub fn env_vars_for(&self, sdk: &str) -> (vars: Vec<(String, String)>)
        ensures
            vars@.len() == 2,
            vars@[0].0@ == "ANDROID_HOME"@,
            vars@[0].1@ == sdk@,
            vars@[1].0@ == "ANDROID_SDK_ROOT"@,
            vars@[1].1@ == sdk@,
    {
        let mut vars: Vec<(String, String)> = Vec::new();
        vars.push((String::from_str("ANDROID_HOME"), String::from_str(sdk)));
        vars.push((String::from_str("ANDROID_SDK_ROOT"), String::from_str(sdk)));
        vars
    }
}

} // verus!
