//! A plugin system: plugins called through a trait (statically or as trait objects), a
//! manager that finds them by name, string settings, and plugins with an
//! initialize/execute/cleanup lifecycle.
use vstd::prelude::*;
use crate::text::{owned, str_eq, append_str, append_chars, decimal, decimal_chars, string_from_chars};

verus! {

/// A plugin: a name, a version, and an action that yields a message or an error.
pub trait Plugin {
    /// The plugin's name.
    spec fn name_text(&self) -> Seq<char>;

    /// The plugin's version.
    spec fn version_text(&self) -> Seq<char>;

    /// What `execute` gives: the output or the error message.
    spec fn output(&self) -> Result<Seq<char>, Seq<char>>;

    fn name(&self) -> (r: &str)
        ensures
            r@ == self.name_text(),
    ;

    fn version(&self) -> (r: &str)
        ensures
            r@ == self.version_text(),
    ;

    fn execute(&self) -> (r: Result<String, String>)
        ensures
            match self.output() {
                Ok(o) => r matches Ok(s) && s@ == o,
                Err(e) => r matches Err(s) && s@ == e,
            },
    ;
}

/// Greets with a fixed message.
pub struct GreeterPlugin {
    pub greeting: String,
}

impl Plugin for GreeterPlugin {
    open spec fn name_text(&self) -> Seq<char> {
        "Greeter"@
    }

    open spec fn version_text(&self) -> Seq<char> {
        "1.0.0"@
    }

    open spec fn output(&self) -> Result<Seq<char>, Seq<char>> {
        Ok(self.greeting@)
    }

    fn name(&self) -> (r: &str) {
        "Greeter"
    }

    fn version(&self) -> (r: &str) {
        "1.0.0"
    }

    fn execute(&self) -> (r: Result<String, String>) {
        Ok(owned(self.greeting.as_str()))
    }
}

/// Adds two and two.
pub struct CalculatorPlugin;

/// The sum that the calculator reports, written out.
pub open spec fn sum_text(lhs: nat, rhs: nat) -> Seq<char> {
    decimal(lhs) + " + "@ + decimal(rhs) + " = "@ + decimal(lhs + rhs)
}

impl Plugin for CalculatorPlugin {
    open spec fn name_text(&self) -> Seq<char> {
        "Calculator"@
    }

    open spec fn version_text(&self) -> Seq<char> {
        "1.0.0"@
    }

    open spec fn output(&self) -> Result<Seq<char>, Seq<char>> {
        Ok(sum_text(2, 2))
    }

    fn name(&self) -> (r: &str) {
        "Calculator"
    }

    fn version(&self) -> (r: &str) {
        "1.0.0"
    }

    fn execute(&self) -> (r: Result<String, String>) {
        let lhs: u64 = 2;
        let rhs: u64 = 2;
        let mut v: Vec<char> = Vec::new();
        let a = decimal_chars(lhs);
        append_chars(&mut v, a.as_slice());
        append_str(&mut v, " + ");
        let b = decimal_chars(rhs);
        append_chars(&mut v, b.as_slice());
        append_str(&mut v, " = ");
        let c = decimal_chars(lhs + rhs);
        append_chars(&mut v, c.as_slice());
        Ok(string_from_chars(v.as_slice()))
    }
}

/// Pretends to read a file.
pub struct FileReaderPlugin {
    pub path: String,
}

impl Plugin for FileReaderPlugin {
    open spec fn name_text(&self) -> Seq<char> {
        "FileReader"@
    }

    open spec fn version_text(&self) -> Seq<char> {
        "1.0.0"@
    }

    open spec fn output(&self) -> Result<Seq<char>, Seq<char>> {
        Ok("Read content from '"@ + self.path@ + "': <simulated>"@)
    }

    fn name(&self) -> (r: &str) {
        "FileReader"
    }

    fn version(&self) -> (r: &str) {
        "1.0.0"
    }

    fn execute(&self) -> (r: Result<String, String>) {
        let mut v: Vec<char> = Vec::new();
        append_str(&mut v, "Read content from '");
        append_str(&mut v, self.path.as_str());
        append_str(&mut v, "': <simulated>");
        Ok(string_from_chars(v.as_slice()))
    }
}

/// Plugins held as trait objects.
pub struct PluginManager {
    pub plugins: Vec<Box<dyn Plugin>>,
}

impl PluginManager {
    /// A manager with no plugins.
    pub fn new() -> (r: Self)
        ensures
            r.plugins@.len() == 0,
    {
        PluginManager { plugins: Vec::new() }
    }

    /// Adds a plugin after the others.
    pub fn register(&mut self, plugin: Box<dyn Plugin>)
        ensures
            final(self).plugins@ == old(self).plugins@.push(plugin),
    {
        self.plugins.push(plugin);
    }

    /// The first plugin named `name`, if any.
    pub fn get_plugin(&self, name: &str) -> (r: Option<&dyn Plugin>)
        ensures
            r is Some <==> exists|i: int| 0 <= i < self.plugins@.len() && (#[trigger] self.plugins@[i]).name_text() == name@,
    {
        let mut i: usize = 0;
        while i < self.plugins.len()
            invariant
                i <= self.plugins@.len(),
                forall|j: int| 0 <= j < i ==> (#[trigger] self.plugins@[j]).name_text() != name@,
            decreases self.plugins@.len() - i,
        {
            if str_eq(self.plugins[i].name(), name) {
                return Some(&*self.plugins[i]);
            }
            i = i + 1;
        }
        None
    }
}

/// String settings of a plugin; each key appears once.
#[derive(Debug, Clone)]
pub struct PluginConfig {
    settings: Vec<(String, String)>,
}

/// The keys of a list of settings.
pub open spec fn setting_keys(s: Seq<(String, String)>) -> Seq<Seq<char>> {
    s.map_values(|e: (String, String)| e.0@)
}

impl PluginConfig {
    /// The settings, as (key, value) pairs.
    pub closed spec fn entries(&self) -> Seq<(Seq<char>, Seq<char>)> {
        self.settings@.map_values(|e: (String, String)| (e.0@, e.1@))
    }

    /// No key appears twice.
    pub closed spec fn wf(&self) -> bool {
        forall|i: int, j: int|
            0 <= i < j < self.settings@.len() ==> (#[trigger] self.settings@[i]).0@ != (#[trigger] self.settings@[j]).0@
    }

    /// The value of `key`, if it is set.
    pub open spec fn value_of(&self, key: Seq<char>) -> Option<Seq<char>> {
        if exists|i: int| 0 <= i < self.entries().len() && (#[trigger] self.entries()[i]).0 == key {
            let i = choose|i: int| 0 <= i < self.entries().len() && (#[trigger] self.entries()[i]).0 == key;
            Some(self.entries()[i].1)
        } else {
            None
        }
    }

    /// No settings.
    pub fn new() -> (r: Self)
        ensures
            r.wf(),
            r.entries().len() == 0,
    {
        PluginConfig { settings: Vec::new() }
    }

    fn position(&self, key: &str) -> (r: Option<usize>)
        ensures
            match r {
                Some(i) => i < self.settings@.len() && self.settings@[i as int].0@ == key@,
                None => forall|j: int| 0 <= j < self.settings@.len() ==> (#[trigger] self.settings@[j]).0@ != key@,
            },
    {
        let mut i: usize = 0;
        while i < self.settings.len()
            invariant
                i <= self.settings@.len(),
                forall|j: int| 0 <= j < i ==> (#[trigger] self.settings@[j]).0@ != key@,
            decreases self.settings@.len() - i,
        {
            if str_eq(self.settings[i].0.as_str(), key) {
                return Some(i);
            }
            i = i + 1;
        }
        None
    }

    /// Sets `key` to `value`, replacing an earlier value.
    pub fn set(&mut self, key: String, value: String)
        requires
            old(self).wf(),
        ensures
            final(self).wf(),
            final(self).value_of(key@) == Some(value@),
            forall|k: Seq<char>| k != key@ ==> final(self).value_of(k) == old(self).value_of(k),
    {
        let ghost k = key@;
        let ghost v = value@;
        match self.position(key.as_str()) {
            Some(i) => {
                self.settings.set(i, (key, value));
                proof {
                    assert(self.entries()[i as int] == (k, v));
                }
            },
            None => {
                self.settings.push((key, value));
                proof {
                    assert(self.entries()[self.entries().len() - 1] == (k, v));
                }
            },
        }
        proof {
            assert forall|k2: Seq<char>| k2 != k implies self.value_of(k2) == old(self).value_of(k2) by {
                if exists|i: int| 0 <= i < self.entries().len() && (#[trigger] self.entries()[i]).0 == k2 {
                    let i = choose|i: int| 0 <= i < self.entries().len() && (#[trigger] self.entries()[i]).0 == k2;
                    assert(old(self).entries()[i].0 == k2);
                }
                if exists|i: int| 0 <= i < old(self).entries().len() && (#[trigger] old(self).entries()[i]).0 == k2 {
                    let i = choose|i: int| 0 <= i < old(self).entries().len() && (#[trigger] old(self).entries()[i]).0 == k2;
                    assert(self.entries()[i].0 == k2);
                }
            }
        }
    }

    /// The value of `key`, if it is set.
    pub fn get(&self, key: &str) -> (r: Option<&str>)
        requires
            self.wf(),
        ensures
            match self.value_of(key@) {
                Some(v) => r matches Some(s) && s@ == v,
                None => r is None,
            },
    {
        match self.position(key) {
            Some(i) => {
                proof {
                    assert(self.entries()[i as int].0 == key@);
                }
                Some(self.settings[i].1.as_str())
            },
            None => {
                proof {
                    if exists|i: int| 0 <= i < self.entries().len() && (#[trigger] self.entries()[i]).0 == key@ {
                        let i = choose|i: int| 0 <= i < self.entries().len() && (#[trigger] self.entries()[i]).0 == key@;
                        assert(self.settings@[i].0@ == key@);
                    }
                }
                None
            },
        }
    }
}

/// Who wrote a plugin and what it does.
pub trait PluginMetadata {
    fn author(&self) -> &str;

    fn description(&self) -> &str;

    fn dependencies(&self) -> (r: Vec<&str>)
        ensures
            r@.len() == 0,
    {
        Vec::new()
    }
}

/// A plugin with an initialize/execute/cleanup lifecycle. Initializing and cleaning up
/// keep its name.
pub trait PluginWithLifecycle {
    /// The plugin's name.
    spec fn name_text(&self) -> Seq<char>;

    /// What `execute` gives now: the output or the error message.
    spec fn output(&self) -> Result<Seq<char>, Seq<char>>;

    /// What `cleanup` gives now: success or the error message. Cleaning up succeeds
    /// unless a plugin says otherwise.
    open spec fn cleanup_outcome(&self) -> Result<(), Seq<char>> {
        Ok(())
    }

    fn name(&self) -> (r: &str)
        ensures
            r@ == self.name_text(),
    ;

    fn version(&self) -> &str;

    fn initialize(&mut self, config: &PluginConfig) -> (r: Result<(), String>)
        requires
            config.wf(),
        ensures
            final(self).name_text() == old(self).name_text(),
    {
        Ok(())
    }

    fn execute(&self) -> (r: Result<String, String>)
        ensures
            match self.output() {
                Ok(o) => r matches Ok(s) && s@ == o,
                Err(e) => r matches Err(s) && s@ == e,
            },
    ;

    fn cleanup(&mut self) -> (r: Result<(), String>)
        ensures
            final(self).name_text() == old(self).name_text(),
            match old(self).cleanup_outcome() {
                Ok(()) => r is Ok,
                Err(e) => r matches Err(m) && m@ == e,
            },
    ;
}

/// A logger whose level comes from the `log_level` setting.
pub struct LoggingPlugin {
    pub log_level: String,
    pub initialized: bool,
}

impl LoggingPlugin {
    /// An uninitialized logger at level `INFO`.
    pub fn new() -> (r: Self)
        ensures
            r.log_level@ == "INFO"@,
            !r.initialized,
    {
        LoggingPlugin { log_level: owned("INFO"), initialized: false }
    }
}

impl PluginWithLifecycle for LoggingPlugin {
    open spec fn name_text(&self) -> Seq<char> {
        "Logger"@
    }

    open spec fn output(&self) -> Result<Seq<char>, Seq<char>> {
        if self.initialized {
            Ok("Logging at level: "@ + self.log_level@)
        } else {
            Err("Plugin not initialized"@)
        }
    }

    fn name(&self) -> (r: &str) {
        "Logger"
    }

    fn version(&self) -> (r: &str)
        ensures
            r@ == "2.0.0"@,
    {
        "2.0.0"
    }

    fn initialize(&mut self, config: &PluginConfig) -> (r: Result<(), String>)
        ensures
            r is Ok,
            final(self).initialized,
            match config.value_of("log_level"@) {
                Some(level) => final(self).log_level@ == level,
                None => final(self).log_level@ == old(self).log_level@,
            },
    {
        match config.get("log_level") {
            Some(level) => {
                self.log_level = owned(level);
            },
            None => {},
        }
        self.initialized = true;
        Ok(())
    }

    fn execute(&self) -> (r: Result<String, String>) {
        if !self.initialized {
            return Err(owned("Plugin not initialized"));
        }
        let mut v: Vec<char> = Vec::new();
        append_str(&mut v, "Logging at level: ");
        append_str(&mut v, self.log_level.as_str());
        Ok(string_from_chars(v.as_slice()))
    }

    fn cleanup(&mut self) -> (r: Result<(), String>)
        ensures
            r is Ok,
            !final(self).initialized,
            final(self).log_level@ == "INFO"@,
    {
        self.initialized = false;
        self.log_level = owned("INFO");
        Ok(())
    }
}

impl PluginMetadata for LoggingPlugin {
    fn author(&self) -> (r: &str)
        ensures
            r@ == "Plugin Team"@,
    {
        "Plugin Team"
    }

    fn description(&self) -> (r: &str)
        ensures
            r@ == "Provides logging functionality with configurable levels"@,
    {
        "Provides logging functionality with configurable levels"
    }
}

/// The message for a plugin that is not registered.
pub open spec fn not_found_text(name: Seq<char>) -> Seq<char> {
    "Plugin '"@ + name + "' not found"@
}

/// The `name: error` message of each plugin of `ps` whose cleanup fails, in order.
pub open spec fn failures(ps: Seq<Box<dyn PluginWithLifecycle>>) -> Seq<Seq<char>>
    decreases ps.len(),
{
    if ps.len() == 0 {
        Seq::empty()
    } else {
        let rest = failures(ps.drop_last());
        match ps.last().cleanup_outcome() {
            Ok(()) => rest,
            Err(e) => rest.push(ps.last().name_text() + ": "@ + e),
        }
    }
}

/// Lifecycle plugins held as trait objects.
pub struct EnhancedPluginManager {
    pub plugins: Vec<Box<dyn PluginWithLifecycle>>,
}

impl EnhancedPluginManager {
    /// A manager with no plugins.
    pub fn new() -> (r: Self)
        ensures
            r.plugins@.len() == 0,
    {
        EnhancedPluginManager { plugins: Vec::new() }
    }

    /// Initializes `plugin` with `config` and, if that succeeds, adds it after the
    /// others; otherwise returns the error and adds nothing.
    pub fn register_and_init(&mut self, plugin: Box<dyn PluginWithLifecycle>, config: &PluginConfig) -> (r: Result<(), String>)
        requires
            config.wf(),
        ensures
            r is Err ==> final(self).plugins@ == old(self).plugins@,
            r is Ok ==> exists|q: Box<dyn PluginWithLifecycle>| final(self).plugins@ == old(self).plugins@.push(q)
                && q.name_text() == plugin.name_text(),
    {
        let ghost before = self.plugins@;
        let mut p = plugin;
        match p.initialize(config) {
            Ok(()) => {},
            Err(e) => return Err(e),
        }
        let ghost q = p;
        self.plugins.push(p);
        assert(self.plugins@ == before.push(q));
        Ok(())
    }

    /// Executes the first plugin named `name`; an error if there is none.
    pub fn execute_plugin(&self, name: &str) -> (r: Result<String, String>)
        ensures
            (forall|j: int| 0 <= j < self.plugins@.len() ==> (#[trigger] self.plugins@[j]).name_text() != name@)
                ==> (r matches Err(m) && m@ == not_found_text(name@)),
            (exists|i: int| 0 <= i < self.plugins@.len() && (#[trigger] self.plugins@[i]).name_text() == name@)
                ==> exists|i: int| 0 <= i < self.plugins@.len() && (#[trigger] self.plugins@[i]).name_text() == name@
                && (forall|j: int| 0 <= j < i ==> (#[trigger] self.plugins@[j]).name_text() != name@)
                && match self.plugins@[i].output() {
                    Ok(o) => r matches Ok(s) && s@ == o,
                    Err(e) => r matches Err(s) && s@ == e,
                },
    {
        let mut i: usize = 0;
        while i < self.plugins.len()
            invariant
                i <= self.plugins@.len(),
                forall|j: int| 0 <= j < i ==> (#[trigger] self.plugins@[j]).name_text() != name@,
            decreases self.plugins@.len() - i,
        {
            if str_eq(self.plugins[i].name(), name) {
                return self.plugins[i].execute();
            }
            i = i + 1;
        }
        let mut v: Vec<char> = Vec::new();
        append_str(&mut v, "Plugin '");
        append_str(&mut v, name);
        append_str(&mut v, "' not found");
        Err(string_from_chars(v.as_slice()))
    }

    /// Cleans up every plugin, in order, collecting `name: error` for each failure,
    /// then removes them all.
    pub fn shutdown(&mut self) -> (r: Vec<String>)
        ensures
            final(self).plugins@.len() == 0,
            r@.len() == failures(old(self).plugins@).len(),
            forall|k: int| 0 <= k < r@.len() ==> (#[trigger] r@[k])@ == failures(old(self).plugins@)[k],
    {
        let ghost orig = self.plugins@;
        let mut errors: Vec<String> = Vec::new();
        let n = self.plugins.len();
        let mut i: usize = 0;
        while i < n
            invariant
                n == self.plugins@.len(),
                n == orig.len(),
                i <= n,
                forall|j: int| i <= j < n ==> self.plugins@[j] == #[trigger] orig[j],
                errors@.len() == failures(orig.take(i as int)).len(),
                forall|k: int| 0 <= k < errors@.len() ==> (#[trigger] errors@[k])@ == failures(orig.take(i as int))[k],
            decreases n - i,
        {
            let ghost before = errors@;
            let ghost p0 = orig[i as int];
            proof {
                assert(orig.take(i + 1).drop_last() =~= orig.take(i as int));
                assert(orig.take(i + 1).last() == p0);
            }
            let plugin = &mut self.plugins[i];
            match plugin.cleanup() {
                Ok(()) => {},
                Err(e) => {
                    let mut v: Vec<char> = Vec::new();
                    append_str(&mut v, plugin.name());
                    append_str(&mut v, ": ");
                    append_str(&mut v, e.as_str());
                    errors.push(string_from_chars(v.as_slice()));
                    proof {
                        assert(errors@[errors@.len() - 1]@ == failures(orig.take(i + 1)).last());
                    }
                },
            }
            i = i + 1;
        }
        proof {
            assert(orig.take(n as int) =~= orig);
        }
        self.plugins.clear();
        errors
    }
}

} // verus!
