//! The configuration-loader decision: a root's manifest may be JSON or
//! YAML, probed in a fixed order; the JS metadata file is always JSON and
//! never goes through this probing.

use vstd::prelude::*;

verus! {

/// Which manifest file the loader opens.
#[derive(Debug, PartialEq, Eq, Clone, Copy)]
pub enum ConfigSource {
    /// `{name}.json` exists: parse it as JSON.
    Json,
    /// `{name}.yaml` exists: parse it as YAML.
    Yaml,
    /// `{name}.yml` exists: parse it as YAML.
    Yml,
    /// None of the three exists: a not-found error.
    Missing,
}

/// Picks the manifest file to load: JSON first, then `.yaml`, then `.yml`;
/// the first existing file wins.  The JS metadata file (`package`) must not
/// go through this probing: that is a caller error, not a runtime one.
pub fn probe_config(
    config_name: &str,
    json_exists: bool,
    yaml_exists: bool,
    yml_exists: bool,
) -> (r: ConfigSource)
    requires
        config_name@ != "package"@,
    ensures
        json_exists ==> r == ConfigSource::Json,
        !json_exists && yaml_exists ==> r == ConfigSource::Yaml,
        !json_exists && !yaml_exists && yml_exists ==> r == ConfigSource::Yml,
        !json_exists && !yaml_exists && !yml_exists ==> r == ConfigSource::Missing,
{
    if json_exists {
        ConfigSource::Json
    } else if yaml_exists {
        ConfigSource::Yaml
    } else if yml_exists {
        ConfigSource::Yml
    } else {
        ConfigSource::Missing
    }
}

} // verus!
