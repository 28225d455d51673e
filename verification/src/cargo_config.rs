//! The cargo configuration of a generated workspace: the project's own
//! `.cargo/config.toml` with `build.target` set to the workspace's target,
//! edited with `toml_edit` so that its formatting and comments are kept.
use vstd::prelude::*;

use toml_edit::TomlError;

verus! {

#[verifier::external_type_specification]
#[verifier::external_body]
pub struct ExTomlError(TomlError);

/// What the `build` key of a TOML document holds.
#[derive(Debug, Clone, Copy, PartialEq, Eq, Structural)]
pub enum BuildItem {
    /// The document has no `build` key.
    Missing,
    /// A table, `[build]`.
    Table,
    /// An inline table, `build = { .. }`.
    InlineTable,
    /// Any other value, such as `build = 1`.
    Value,
    /// An array of tables, `[[build]]`.
    ArrayOfTables,
}

impl BuildItem {
    /// A key can be set under the item: it is missing, or a table of either kind.
    pub open spec fn spec_takes_keys(self) -> bool {
        match self {
            BuildItem::Missing | BuildItem::Table | BuildItem::InlineTable => true,
            _ => false,
        }
    }

    /// Whether a key can be set under the item.
    #[verifier::when_used_as_spec(spec_takes_keys)]
    pub fn takes_keys(self) -> (r: bool)
        ensures
            r == self.spec_takes_keys(),
    {
        match self {
            BuildItem::Missing | BuildItem::Table | BuildItem::InlineTable => true,
            _ => false,
        }
    }
}

/// What the `build` key of the TOML text `config` holds, or `None` where
/// `config` is not TOML.
pub uninterp spec fn config_build_item(config: Seq<char>) -> Option<BuildItem>;

/// The TOML text `config` with `build.target` set to the string `target`,
/// rendered again.
pub uninterp spec fn config_with_build_target(config: Seq<char>, target: Seq<char>) -> Seq<char>;

/// Parses `config` into a `toml_edit::DocumentMut` and tells apart what its
/// `build` key holds (`Table::get`, one arm per variant of `Item`). The
/// contract claims only that the outcome is a function of the text,
/// `config_build_item`.
#[verifier::external_body]
fn build_item(config: &str) -> (r: Result<BuildItem, TomlError>)
    ensures
        match r {
            Err(_) => config_build_item(config@) is None,
            Ok(item) => config_build_item(config@) == Some(item),
        },
{
    let document = config.parse::<toml_edit::DocumentMut>()?;
    Ok(match document.get("build") {
        None => BuildItem::Missing,
        Some(toml_edit::Item::None) => BuildItem::Missing,
        Some(toml_edit::Item::Table(_)) => BuildItem::Table,
        Some(toml_edit::Item::Value(toml_edit::Value::InlineTable(_))) => BuildItem::InlineTable,
        Some(toml_edit::Item::Value(_)) => BuildItem::Value,
        Some(toml_edit::Item::ArrayOfTables(_)) => BuildItem::ArrayOfTables,
    })
}

/// Parses `config` into a `toml_edit::DocumentMut`, sets `build.target` to
/// the string `target` through `IndexMut` (creating `build` where it is
/// missing) and renders the document again. `IndexMut` panics unless `build`
/// is missing or holds a table of either kind, which is therefore required.
/// The text parses here exactly when it does in `build_item`; what the edit
/// gives is claimed only to be a function of the two texts,
/// `config_with_build_target`.
#[verifier::external_body]
fn set_build_target(config: &str, target: &str) -> (r: Result<String, TomlError>)
    requires
        config_build_item(config@) matches Some(item) ==> item.spec_takes_keys(),
    ensures
        r is Err <==> config_build_item(config@) is None,
        r matches Ok(s) ==> s@ == config_with_build_target(config@, target@),
{
    let mut document = config.parse::<toml_edit::DocumentMut>()?;
    document["build"]["target"] = toml_edit::value(target);
    Ok(document.to_string())
}

/// Why the workspace configuration could not be written.
#[derive(Debug)]
pub enum ConfigError {
    /// The project's configuration is not valid TOML.
    NotToml(TomlError),
    /// The project's configuration has a `build` key that is not a table.
    BuildNotTable,
}

/// The cargo configuration of the workspace for `target`: the project's
/// configuration `config` with `build.target` set to `target`.
pub fn workspace_cargo_config(config: &str, target: &str) -> (r: Result<String, ConfigError>)
    ensures
        match config_build_item(config@) {
            None => r matches Err(ConfigError::NotToml(_)),
            Some(item) => if item.spec_takes_keys() {
                r matches Ok(t) && t@ == config_with_build_target(config@, target@)
            } else {
                r == Err::<String, ConfigError>(ConfigError::BuildNotTable)
            },
        },
{
    match build_item(config) {
        Err(e) => Err(ConfigError::NotToml(e)),
        Ok(item) => {
            if item.takes_keys() {
                match set_build_target(config, target) {
                    Ok(edited) => Ok(edited),
                    Err(e) => Err(ConfigError::NotToml(e)),
                }
            } else {
                Err(ConfigError::BuildNotTable)
            }
        },
    }
}

} // verus!
