use vstd::prelude::*;

verus! {

/// A task as the configuration defines it.
pub struct TaskConfig {
    pub description: Option<String>,
    /// A single shell command; user arguments are appended to it.
    pub command: Option<String>,
    /// A multi-line shell body; user arguments are not passed to it.
    pub script: Option<String>,
    /// Names of the tasks that must succeed first, in source order.
    pub dependencies: Option<Vec<String>>,
    /// A directory relative to the project root.
    pub working_dir: Option<String>,
    /// The interpreter; `sh` when absent.
    pub shell: Option<String>,
    pub inputs: Option<Vec<String>>,
    pub outputs: Option<Vec<String>>,
    pub cache: Option<bool>,
    pub cache_key: Option<String>,
    pub timeout: Option<u32>,
}

/// The views of a vector of names.
pub open spec fn names_view(v: Seq<String>) -> Seq<Seq<char>> {
    v.map_values(|s: String| s@)
}

impl TaskConfig {
    /// The dependency names of the task, empty when none are listed.
    pub open spec fn deps(&self) -> Seq<Seq<char>> {
        match self.dependencies {
            Some(v) => names_view(v@),
            None => Seq::empty(),
        }
    }

    /// Whether results of the task may be taken from the cache.
    pub open spec fn cache_enabled(&self) -> bool {
        self.cache == Some(true)
    }

    /// A task with nothing but a command.
    pub fn with_command(command: String) -> (r: TaskConfig)
        ensures
            r.command == Some(command),
            r.script.is_none(),
            r.deps() == Seq::<Seq<char>>::empty(),
            r.description.is_none(),
            r.shell.is_none(),
            r.working_dir.is_none(),
            !r.cache_enabled(),
    {
        TaskConfig {
            description: None,
            command: Some(command),
            script: None,
            dependencies: None,
            working_dir: None,
            shell: None,
            inputs: None,
            outputs: None,
            cache: None,
            cache_key: None,
            timeout: None,
        }
    }

    /// The same definition: equal fields, lists with equal contents.
    pub open spec fn same_as(&self, o: TaskConfig) -> bool {
        &&& self.description == o.description
        &&& self.command == o.command
        &&& self.script == o.script
        &&& same_list(self.dependencies, o.dependencies)
        &&& self.working_dir == o.working_dir
        &&& self.shell == o.shell
        &&& same_list(self.inputs, o.inputs)
        &&& same_list(self.outputs, o.outputs)
        &&& self.cache == o.cache
        &&& self.cache_key == o.cache_key
        &&& self.timeout == o.timeout
    }

    /// A field-by-field copy.
    pub fn copied(&self) -> (r: TaskConfig)
        ensures
            r.same_as(*self),
            r.deps() == self.deps(),
    {
        TaskConfig {
            description: copy_text(&self.description),
            command: copy_text(&self.command),
            script: copy_text(&self.script),
            dependencies: copy_list(&self.dependencies),
            working_dir: copy_text(&self.working_dir),
            shell: copy_text(&self.shell),
            inputs: copy_list(&self.inputs),
            outputs: copy_list(&self.outputs),
            cache: self.cache,
            cache_key: copy_text(&self.cache_key),
            timeout: self.timeout,
        }
    }
}

/// A copy of an optional string.
pub fn copy_text(s: &Option<String>) -> (r: Option<String>)
    ensures
        r == *s,
{
    match s {
        Some(t) => Some(t.clone()),
        None => None,
    }
}

/// A copy of a vector of strings.
pub fn copy_names(v: &Vec<String>) -> (r: Vec<String>)
    ensures
        r@ == v@,
{
    let mut r: Vec<String> = Vec::new();
    let mut i: usize = 0;
    while i < v.len()
        invariant
            i <= v.len(),
            r@ == v@.subrange(0, i as int),
        decreases v.len() - i,
    {
        r.push(v[i].clone());
        i = i + 1;
    }
    assert(r@ =~= v@);
    r
}

/// Two optional vectors of strings with the same contents.
pub open spec fn same_list(a: Option<Vec<String>>, b: Option<Vec<String>>) -> bool {
    match (a, b) {
        (Some(x), Some(y)) => x@ == y@,
        (None, None) => true,
        _ => false,
    }
}

/// A copy of an optional vector of strings.
pub fn copy_list(s: &Option<Vec<String>>) -> (r: Option<Vec<String>>)
    ensures
        same_list(r, *s),
{
    match s {
        Some(v) => Some(copy_names(v)),
        None => None,
    }
}

} // verus!
