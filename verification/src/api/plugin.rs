//! The handshake of the engine with the plugin.

use vstd::prelude::*;

verus! {

/// The handshake endpoint of the plugin.
pub struct Plugin;

/// The answer to the handshake: the capabilities that the plugin has.
pub struct PluginImplements {
    pub implements: Vec<String>,
}

/// The one capability of a log driver.
pub open spec fn logging_driver() -> Seq<char> {
    "LoggingDriver"@
}

impl PluginImplements {
    /// The capability set of this plugin: the logging driver, nothing else.
    pub fn new() -> (res: Self)
        ensures
            res.implements@.len() == 1,
            res.implements@[0]@ == logging_driver(),
    {
        let mut implements: Vec<String> = Vec::new();
        implements.push("LoggingDriver".to_owned());
        PluginImplements { implements }
    }
}

impl Plugin {
    /// Answers the handshake. The answer is the same for every request.
    pub fn activate() -> (res: PluginImplements)
        ensures
            res.implements@.len() == 1,
            res.implements@[0]@ == logging_driver(),
    {
        PluginImplements::new()
    }
}

} // verus!
