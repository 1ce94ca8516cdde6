use vstd::prelude::*;

verus! {

/// Descriptive metadata of a template; `name` is the key under which it is stored.
#[derive(Clone, Debug)]
pub struct TemplateManifest {
    pub name: String,
    pub version: String,
    pub authors: Vec<String>,
    pub description: String,
    pub repository: Option<String>,
    pub license: Option<String>,
    pub ignored: bool,
}

/// One file to render: where it goes and the content template that produces it.
#[derive(Clone, Debug)]
pub struct Target {
    pub target: String,
    pub content: String,
}

/// Commands run after a template's files are written.
#[derive(Clone, Debug)]
pub struct Hooks {
    pub reload: Option<String>,
}

/// A named unit of files to render plus an optional reload hook.
#[derive(Clone, Debug)]
pub struct Template {
    pub manifest: TemplateManifest,
    pub targets: Vec<Target>,
    pub files: Vec<Target>,
    pub hooks: Hooks,
}

impl Default for Hooks {
    fn default() -> (r: Hooks)
        ensures
            r.reload is None,
    {
        Hooks { reload: None }
    }
}

impl Template {
    /// The store key of a template.
    pub open spec fn key(&self) -> Seq<char> {
        self.manifest.name@
    }

    /// The same template with its `ignored` flag set to `state`.
    pub open spec fn with_ignored(self, state: bool) -> Template {
        Template {
            manifest: TemplateManifest {
                name: self.manifest.name,
                version: self.manifest.version,
                authors: self.manifest.authors,
                description: self.manifest.description,
                repository: self.manifest.repository,
                license: self.manifest.license,
                ignored: state,
            },
            targets: self.targets,
            files: self.files,
            hooks: self.hooks,
        }
    }
}

} // verus!
