//! Tool and configuration model, with the validation rules a loaded
//! configuration has to meet.

use vstd::prelude::*;

verus! {

/// Root configuration: a schema version and the ordered list of tools.
pub struct Config {
    /// Schema version (only 1 is supported).
    pub version: u32,
    /// Formatter tools, in declaration order.
    pub tools: Vec<Tool>,
}

/// One configured formatter tool.
pub struct Tool {
    /// Human-readable name used in reports.
    pub name: String,
    /// Glob patterns of the files this tool handles.
    pub includes: Vec<String>,
    /// Glob patterns of files to leave out even when included.
    pub exclude: Vec<String>,
    /// Command to run.
    pub cmd: String,
    /// Arguments placed before the file paths.
    pub args: Vec<String>,
    /// Arguments used in check mode; the normal arguments when absent.
    pub check_args: Option<Vec<String>>,
}

/// Why a configuration was rejected.
pub enum ConfigError {
    /// The schema version is not 1.
    UnsupportedVersion(u32),
    /// The tool list is empty.
    NoTools,
    /// A tool has an empty name.
    EmptyToolName,
    /// The named tool has no include pattern.
    NoIncludePatterns(String),
    /// The named tool has an empty command.
    EmptyCommand(String),
}

/// The argument list a tool runs with in the given mode.
pub open spec fn effective_args(t: Tool, check_mode: bool) -> Seq<String> {
    if check_mode && t.check_args is Some {
        t.check_args->0@
    } else {
        t.args@
    }
}

/// The first rule that a single tool breaks, if any.
pub open spec fn tool_check(t: Tool) -> Result<(), ConfigError> {
    if t.name@.len() == 0 {
        Err(ConfigError::EmptyToolName)
    } else if t.includes@.len() == 0 {
        Err(ConfigError::NoIncludePatterns(t.name))
    } else if t.cmd@.len() == 0 {
        Err(ConfigError::EmptyCommand(t.name))
    } else {
        Ok(())
    }
}

/// The first rule broken by any tool of the list, taken in order.
pub open spec fn tools_check(tools: Seq<Tool>) -> Result<(), ConfigError>
    decreases tools.len(),
{
    if tools.len() == 0 {
        Ok(())
    } else {
        match tool_check(tools[0]) {
            Err(e) => Err(e),
            Ok(_) => tools_check(tools.drop_first()),
        }
    }
}

/// Outcome of validating a whole configuration.
pub open spec fn config_check(c: Config) -> Result<(), ConfigError> {
    if c.version != 1 {
        Err(ConfigError::UnsupportedVersion(c.version))
    } else if c.tools@.len() == 0 {
        Err(ConfigError::NoTools)
    } else {
        tools_check(c.tools@)
    }
}

impl Tool {
    /// The arguments to use: the check-mode list when check mode is on and
    /// one is configured, the normal list otherwise.
    pub fn get_args(&self, check_mode: bool) -> (r: &[String])
        ensures
            r@ == effective_args(*self, check_mode),
    {
        if check_mode {
            match &self.check_args {
                Some(a) => a.as_slice(),
                None => self.args.as_slice(),
            }
        } else {
            self.args.as_slice()
        }
    }

    fn check(&self) -> (r: Result<(), ConfigError>)
        ensures
            r == tool_check(*self),
    {
        if self.name.as_str().is_empty() {
            Err(ConfigError::EmptyToolName)
        } else if self.includes.len() == 0 {
            Err(ConfigError::NoIncludePatterns(self.name.clone()))
        } else if self.cmd.as_str().is_empty() {
            Err(ConfigError::EmptyCommand(self.name.clone()))
        } else {
            Ok(())
        }
    }
}

impl Config {
    /// Checks the configuration: version 1, at least one tool, and every
    /// tool with a name, an includes pattern and a command. The first broken
    /// rule is reported.
    pub fn validate(&self) -> (r: Result<(), ConfigError>)
        ensures
            r == config_check(*self),
    {
        if self.version != 1 {
            return Err(ConfigError::UnsupportedVersion(self.version));
        }
        if self.tools.len() == 0 {
            return Err(ConfigError::NoTools);
        }
        let mut i: usize = 0;
        assert(self.tools@.skip(0) =~= self.tools@);
        while i < self.tools.len()
            invariant
                0 <= i <= self.tools@.len(),
                self.version == 1,
                self.tools@.len() > 0,
                tools_check(self.tools@) == tools_check(self.tools@.skip(i as int)),
            decreases self.tools@.len() - i,
        {
            assert(self.tools@.skip(i as int).drop_first() =~= self.tools@.skip(i as int + 1));
            assert(self.tools@.skip(i as int)[0] == self.tools@[i as int]);
            let c = self.tools[i].check();
            if c.is_err() {
                return c;
            }
            i += 1;
        }
        assert(self.tools@.skip(i as int) =~= Seq::<Tool>::empty());
        Ok(())
    }
}

} // verus!
