use avm_android::versions::nums;
use avm_android::install::{
    abi_for_arch, check_download, digest_of_tool_output, install_plan, pinned_cmdline_tools_sha256, InstallPlan, cmdline_tools_url, platform_packages, resolve_build_tools_version,
    resolve_system_image_id, sdkmanager_install_args, sysimg_package, wrapper_script, InstallError,
};

#[test]
fn resolvers_pick_real_packages() {
    let abi = abi_for_arch("x86_64");
    let listing = format!(
        "  build-tools;36.0.0 | 36.0.0 | x\n  build-tools;37.0.0-rc1 | x\n  build-tools;35.0.1 | x\n\
         system-images;android-36;google_apis;{abi} | 1 | x\n\
         system-images;android-37.0;google_apis;{abi} | 1 | x\n\
         system-images;android-37.0;google_apis_playstore;{abi} | 1 | x\n\
         system-images;android-37-ext18;google_apis;{abi} | 1 | x\n"
    );
    assert_eq!(resolve_build_tools_version(&listing, "37.2").unwrap(), "36.0.0");
    assert_eq!(resolve_build_tools_version(&listing, "35").unwrap(), "35.0.1");
    assert_eq!(resolve_system_image_id(&listing, "37.2", abi).unwrap(), "37.0");
    assert_eq!(resolve_system_image_id(&listing, "36", abi).unwrap(), "36");
}

#[test]
fn build_tools_errors_without_stable_release() {
    let listing = "build-tools;37.0.0-rc1 | x\nplatforms;android-36 | 1\n";
    assert_eq!(resolve_build_tools_version(listing, "36"), Err(InstallError::NoBuildTools));
    assert_eq!(
        InstallError::NoBuildTools.message(),
        "no build-tools package found in the Android SDK repository"
    );
}

#[test]
fn build_tools_prefers_same_major_then_highest() {
    let listing = "build-tools;34.0.0 x\r\nbuild-tools;34.1.2\r\nbuild-tools;35.0.0\n";
    assert_eq!(resolve_build_tools_version(listing, "34").unwrap(), "34.1.2");
    assert_eq!(resolve_build_tools_version(listing, "33").unwrap(), "35.0.0");
}

#[test]
fn system_image_prefers_closest_above_then_any() {
    let listing = "system-images;android-36.1;google_apis;arm64-v8a x\n\
                   system-images;android-36.2;google_apis;arm64-v8a x\n\
                   system-images;android-35;google_apis;arm64-v8a x\n\
                   system-images;android-34;google_apis;arm64-v8a\n";
    assert_eq!(resolve_system_image_id(listing, "36", "arm64-v8a").unwrap(), "36.1");
    assert_eq!(resolve_system_image_id(listing, "37", "arm64-v8a").unwrap(), "36.2");
    assert_eq!(resolve_system_image_id(listing, "33", "arm64-v8a").unwrap(), "36.2");
}

#[test]
fn system_image_ties_keep_last_at_or_below() {
    let listing = "system-images;android-36;google_apis;x86_64 x\n\
                   system-images;android-36.0;google_apis;x86_64 x\n";
    assert_eq!(resolve_system_image_id(listing, "36.1", "x86_64").unwrap(), "36.0");
}

#[test]
fn system_image_errors() {
    let err = resolve_system_image_id("", "CANARY", "x86_64").unwrap_err();
    assert_eq!(err, InstallError::UnparsableApi("CANARY".to_string()));
    assert_eq!(err.message(), "cannot parse Android API level 'CANARY'");
    let err = resolve_system_image_id("system-images;android-36;google_apis;arm64-v8a x\n", "36", "x86_64")
        .unwrap_err();
    assert_eq!(
        err.message(),
        "no x86_64 system image found for Android API 36 in the SDK repository"
    );
}

#[test]
fn names_urls_and_scripts() {
    assert_eq!(abi_for_arch("aarch64"), "arm64-v8a");
    assert_eq!(abi_for_arch("x86_64"), "x86_64");
    assert_eq!(sysimg_package("36.1", "x86_64"), "system-images;android-36.1;google_apis;x86_64");
    assert_eq!(
        cmdline_tools_url("linux", "11076708").unwrap(),
        "https://dl.google.com/android/repository/commandlinetools-linux-11076708_latest.zip"
    );
    assert_eq!(
        cmdline_tools_url("macos", "1").unwrap(),
        "https://dl.google.com/android/repository/commandlinetools-mac-1_latest.zip"
    );
    let err = cmdline_tools_url("windows", "1").unwrap_err();
    assert_eq!(err.message(), "unsupported OS for Android cmdline-tools: windows");
    assert_eq!(
        wrapper_script("/s", "/s/t"),
        "#!/usr/bin/env sh\nexport ANDROID_HOME=\"/s\"\nexport ANDROID_SDK_ROOT=\"/s\"\nexec \"/s/t\" \"$@\"\n"
    );
    let extra = platform_packages("36", "36.0.0");
    assert_eq!(extra, ["platform-tools", "platforms;android-36", "build-tools;36.0.0"]);
    let args = sdkmanager_install_args(&extra, "pkg");
    assert_eq!(args, ["platform-tools", "platforms;android-36", "build-tools;36.0.0", "emulator", "pkg"]);
}

#[test]
fn install_plans() {
    assert_eq!(install_plan(true, true, false), InstallPlan::WrappersOnly);
    assert_eq!(install_plan(true, false, true), InstallPlan::Packages { bootstrap: false });
    assert_eq!(install_plan(false, true, false), InstallPlan::Packages { bootstrap: true });
}

#[test]
fn resolved_build_tools_reads_back() {
    let listing = "build-tools;30.10.2 r\nbuild-tools;30.9.99\n";
    let v = resolve_build_tools_version(listing, "30").unwrap();
    assert_eq!(v, "30.10.2");
    assert_eq!(nums(&v, 3), Some(vec![30, 10, 2]));
}

#[test]
fn download_verification() {
    let linux = "2d2d50857e4eb553af5a6dc3ad507a17adf43d115264b1afc116f95c92e5e258";
    assert_eq!(pinned_cmdline_tools_sha256("linux", "11076708"), Some(linux));
    assert_eq!(pinned_cmdline_tools_sha256("linux", "1"), None);
    assert_eq!(pinned_cmdline_tools_sha256("windows", "11076708"), None);
    assert_eq!(check_download("linux", "11076708", None, false, linux), Ok(()));
    assert_eq!(check_download("linux", "11076708", None, false, &linux.to_uppercase()), Ok(()));
    let err = check_download("linux", "11076708", None, true, "00").unwrap_err();
    assert_eq!(
        err,
        InstallError::DigestMismatch { expected: linux.to_string(), actual: "00".to_string() }
    );
    assert_eq!(
        err.message(),
        format!("Android cmdline-tools download failed verification: expected sha256 {linux}, got 00")
    );
    assert_eq!(check_download("linux", "1", Some("AB"), false, "ab"), Ok(()));
    assert!(check_download("linux", "1", Some("ab"), true, "ac").is_err());
    let err = check_download("linux", "1", None, false, "ab").unwrap_err();
    assert_eq!(err, InstallError::UnverifiedDownload("1".to_string()));
    assert_eq!(
        err.message(),
        "no known sha256 for Android cmdline-tools build 1 (set ANDROID_CMDLINE_TOOLS_SHA256, or AVM_ALLOW_UNVERIFIED=1 to skip the check)"
    );
    assert_eq!(check_download("linux", "1", None, true, "ab"), Ok(()));
    assert_eq!(digest_of_tool_output(&format!("{linux}  /tmp/x.zip\n")), linux);
}

#[test]
fn nums_reads_joined_numbers() {
    assert_eq!(nums("3.14", 3), Some(vec![3, 14, 0]));
    assert_eq!(nums(&[7u64, 0, 9].map(|x| x.to_string()).join("."), 4), Some(vec![7, 0, 9, 0]));
}
