//! Session settings.
use jev_datafusion::{ErrorKind, JevConfig, JevOnError, JevSessionOptions};

#[test]
fn generated_options_have_a_validated_public_builder() {
    let options = JevSessionOptions {
        model: "custom-model".into(),
        on_error: JevOnError::Null,
    };
    assert_eq!(JevConfig::try_from_options(options.clone()).unwrap().0, options);
    assert_eq!(
        JevConfig::try_from_options(JevSessionOptions::default()).unwrap().0,
        JevSessionOptions::default()
    );
    for model in ["", " ", "\t\n"] {
        let error = JevConfig::try_from_options(JevSessionOptions {
            model: model.into(),
            ..JevSessionOptions::default()
        })
        .unwrap_err();
        assert!(error.shown().contains("model cannot be empty"));
    }
}

#[test]
fn rejected_settings_change_nothing() {
    let mut config = JevConfig::try_from_options(JevSessionOptions::default()).unwrap();
    config.set("on_error", "null").unwrap();
    config.set("model", "m").unwrap();
    for (key, value, message) in [
        ("on_error", "ignore", "jev.on_error must be fail or null"),
        ("model", " ", "jev.model cannot be empty"),
        ("other", "x", "unknown Jev setting: other"),
    ] {
        let error = config.set(key, value).unwrap_err();
        assert_eq!((error.kind, error.message.as_str()), (ErrorKind::Configuration, message));
    }
    assert_eq!(config.0, JevSessionOptions { model: "m".into(), on_error: JevOnError::Null });
    let entries = config.entries();
    assert_eq!((entries[0].key.as_str(), entries[0].value.as_str()), ("jev.on_error", "null"));
    assert_eq!((entries[1].key.as_str(), entries[1].value.as_str()), ("jev.model", "m"));
    assert_eq!(JevConfig::options(Some(&config)).model, "m");
    assert_eq!(JevConfig::options(None), JevSessionOptions::default());
}

#[test]
fn listed_settings_can_be_set_again() {
    for policy in [JevOnError::Fail, JevOnError::Null] {
        let options = JevSessionOptions { model: "m".into(), on_error: policy };
        let listed = JevConfig::try_from_options(options.clone()).unwrap().entries();
        let mut config = JevConfig::default();
        for entry in listed {
            config.set(entry.key.strip_prefix("jev.").unwrap(), &entry.value).unwrap();
        }
        assert_eq!(config.0, options);
    }
}
