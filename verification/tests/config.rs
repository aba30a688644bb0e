use avm_android::config::{pinned_java_in, pinned_java_version, Json};
use avm_android::provider::AndroidProvider;

#[test]
fn java_pin_at_tools_java() {
    let doc = Json::Object(vec![(
        "tools".to_string(),
        Json::Object(vec![
            ("android".to_string(), Json::Text("36".to_string())),
            ("java".to_string(), Json::Text("21".to_string())),
        ]),
    )]);
    assert_eq!(pinned_java_version(&doc).as_deref(), Some("21"));
    let no_java = Json::Object(vec![("tools".to_string(), Json::Object(vec![]))]);
    assert_eq!(pinned_java_version(&no_java), None);
    let not_text = Json::Object(vec![("tools".to_string(), Json::Object(vec![("java".to_string(), Json::Other)]))]);
    assert_eq!(pinned_java_version(&not_text), None);
    assert_eq!(pinned_java_version(&Json::Other), None);
}

#[test]
fn provider_environment() {
    let p = AndroidProvider::new();
    assert_eq!(p.name(), "android");
    let vars = p.env_vars_for("/home/u/.avm/tools/android/36/sdk");
    assert_eq!(vars[0], ("ANDROID_HOME".to_string(), "/home/u/.avm/tools/android/36/sdk".to_string()));
    assert_eq!(vars[1].0, "ANDROID_SDK_ROOT");
}

#[test]
fn java_pin_from_config_text() {
    assert_eq!(
        pinned_java_in(r#"{"tools": {"java": "21", "android": "36"}, "other": 1}"#).as_deref(),
        Some("21")
    );
    assert_eq!(pinned_java_in(r#"{"tools": {"java": 21}}"#), None);
    assert_eq!(pinned_java_in(r#"{"tools": []}"#), None);
    assert_eq!(pinned_java_in("not json"), None);
    assert_eq!(pinned_java_in(""), None);
}
