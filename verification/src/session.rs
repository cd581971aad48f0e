//! The settings of a session.
use vstd::prelude::*;

use crate::contract::{JevOnError, JevSessionOptions, TYPESAFE_DEFAULT_MODEL};
use crate::errors::{row_fault, ErrorKind, Fault, JevError};
use crate::text::{blank, is_blank, join2, same};

verus! {

/// The settings of a session, as the query engine keeps them. A copy of its own
/// keeps later changes out of queries that are already planned.
#[derive(Debug, Clone)]
pub struct JevConfig(pub JevSessionOptions);

impl Default for JevConfig {
    fn default() -> (config: JevConfig)
        ensures
            config.0.model@ == TYPESAFE_DEFAULT_MODEL@,
            config.0.on_error == JevOnError::Fail,
    {
        JevConfig(JevSessionOptions::default())
    }
}

/// The error for a model without a name.
pub open spec fn model_fault() -> Fault {
    row_fault("Jev model cannot be empty"@)
}

/// A settings error with the given text.
pub open spec fn setting_fault(message: Seq<char>) -> Fault {
    Fault { kind: ErrorKind::Configuration, message }
}

fn setting_error(message: &str) -> (error: JevError)
    ensures
        error@ == setting_fault(message@),
{
    JevError { kind: ErrorKind::Configuration, message: message.to_owned() }
}

/// Rejects the name of a model that holds nothing but white space.
pub fn validate_model(model: Option<&str>) -> (result: Result<(), JevError>)
    ensures
        match result {
            Ok(_) => model matches Some(model) ==> !blank(model@),
            Err(error) => (model matches Some(model) && blank(model@)) && error@ == model_fault(),
        },
{
    match model {
        Some(model) => if is_blank(model) {
            Err(JevError::execution("Jev model cannot be empty"))
        } else {
            Ok(())
        },
        None => Ok(()),
    }
}

/// The settings after one of them was set, or the error.
pub open spec fn setting(
    model: Seq<char>,
    on_error: JevOnError,
    key: Seq<char>,
    value: Seq<char>,
) -> Result<(Seq<char>, JevOnError), Fault> {
    if key == "on_error"@ {
        if value == "fail"@ {
            Ok((model, JevOnError::Fail))
        } else if value == "null"@ {
            Ok((model, JevOnError::Null))
        } else {
            Err(setting_fault("jev.on_error must be fail or null"@))
        }
    } else if key == "model"@ {
        if blank(value) {
            Err(setting_fault("jev.model cannot be empty"@))
        } else {
            Ok((value, on_error))
        }
    } else {
        Err(setting_fault("unknown Jev setting: "@ + key))
    }
}

/// One setting as it is listed: its key, its value and what it is for.
#[derive(Debug, Clone, PartialEq, Eq)]
pub struct SettingEntry {
    pub key: String,
    pub value: String,
    pub description: &'static str,
}

impl JevConfig {
    /// Takes options whose model has a name.
    pub fn try_from_options(options: JevSessionOptions) -> (result: Result<JevConfig, JevError>)
        ensures
            match result {
                Ok(config) => config.0 == options && !blank(options.model@),
                Err(error) => blank(options.model@) && error@ == model_fault(),
            },
    {
        match validate_model(Some(options.model.as_str())) {
            Ok(_) => Ok(JevConfig(options)),
            Err(error) => Err(error),
        }
    }

    /// The options of a session: those of its settings, or the default ones where
    /// it has none.
    pub fn options(extension: Option<&JevConfig>) -> (options: JevSessionOptions)
        ensures
            match extension {
                Some(config) => options.model@ == config.0.model@ && options.on_error
                    == config.0.on_error,
                None => options.model@ == TYPESAFE_DEFAULT_MODEL@ && options.on_error
                    == JevOnError::Fail,
            },
    {
        match extension {
            Some(config) => JevSessionOptions {
                model: config.0.model.clone(),
                on_error: config.0.on_error,
            },
            None => JevSessionOptions::default(),
        }
    }

    /// Sets one setting. A value that is rejected changes nothing.
    pub fn set(&mut self, key: &str, value: &str) -> (result: Result<(), JevError>)
        ensures
            match result {
                Ok(_) => setting(old(self).0.model@, old(self).0.on_error, key@, value@) == Ok::<
                    _,
                    Fault,
                >((final(self).0.model@, final(self).0.on_error)),
                Err(error) => setting(old(self).0.model@, old(self).0.on_error, key@, value@)
                    == Err::<(Seq<char>, JevOnError), _>(error@) && *final(self) == *old(self),
            },
    {
        if same(key, "on_error") {
            if same(value, "fail") {
                self.0.on_error = JevOnError::Fail;
            } else if same(value, "null") {
                self.0.on_error = JevOnError::Null;
            } else {
                return Err(setting_error("jev.on_error must be fail or null"));
            }
            Ok(())
        } else if same(key, "model") {
            if validate_model(Some(value)).is_err() {
                return Err(setting_error("jev.model cannot be empty"));
            }
            self.0.model = value.to_owned();
            Ok(())
        } else {
            Err(setting_error(join2("unknown Jev setting: ", key).as_str()))
        }
    }

    /// The settings with their values.
    pub fn entries(&self) -> (entries: Vec<SettingEntry>)
        ensures
            entries@.len() == 2,
            entries@[0].key@ == "jev.on_error"@,
            entries@[0].value@ == self.0.on_error.text(),
            entries@[0].description@
                == "fail aborts the query; null returns NULL for recoverable row errors"@,
            entries@[1].key@ == "jev.model"@,
            entries@[1].value@ == self.0.model@,
            entries@[1].description@
                == "Default model for Jev calls that omit the model argument"@,
    {
        let mut entries: Vec<SettingEntry> = Vec::new();
        entries.push(
            SettingEntry {
                key: "jev.on_error".to_owned(),
                value: self.0.on_error.as_str().to_owned(),
                description: "fail aborts the query; null returns NULL for recoverable row errors",
            },
        );
        entries.push(
            SettingEntry {
                key: "jev.model".to_owned(),
                value: self.0.model.clone(),
                description: "Default model for Jev calls that omit the model argument",
            },
        );
        entries
    }
}

/// The model of a session keeps a name, whatever is set.
pub proof fn models_keep_a_name(
    model: Seq<char>,
    on_error: JevOnError,
    key: Seq<char>,
    value: Seq<char>,
)
    requires
        !blank(model),
        setting(model, on_error, key, value) is Ok,
    ensures
        !blank(setting(model, on_error, key, value)->Ok_0.0),
{
}

/// A policy and a model that are listed can be set again, and are then those of the
/// session, whatever it had before.
pub proof fn settings_read_back(
    model: Seq<char>,
    on_error: JevOnError,
    other: Seq<char>,
    policy: JevOnError,
)
    requires
        !blank(other),
    ensures
        setting(model, on_error, "on_error"@, policy.text()) == Ok::<_, Fault>((model, policy)),
        setting(model, on_error, "model"@, other) == Ok::<_, Fault>((other, on_error)),
{
    reveal_strlit("on_error");
    reveal_strlit("model");
    reveal_strlit("fail");
    reveal_strlit("null");
    assert("on_error"@.len() != "model"@.len());
    assert("fail"@[0] != "null"@[0]);
}

} // verus!
