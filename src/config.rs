use vstd::prelude::*;

use crate::strmap::StrMap;

verus! {

/// Theme: its name, which icon set is active, and named colors and fonts.
pub struct ThemeSection {
    pub name: String,
    pub active_icons: String,
    pub colors: StrMap,
    pub fonts: StrMap,
}

/// The two icon sets, label to glyph.
pub struct IconsSection {
    pub nerdfont: StrMap,
    pub ascii: StrMap,
}

/// How a level tag is drawn: brackets, case transform, minimum width, alignment.
pub struct TagConfig {
    pub prefix: String,
    pub suffix: String,
    pub transform: String,
    pub min_width: usize,
    pub alignment: String,
}

/// Line templates for terminal and file output.
pub struct StructureConfig {
    pub terminal: String,
    pub file: String,
}

/// Log retention policy.
pub struct RetentionConfig {
    pub max_age_days: u32,
    pub max_total_size: Option<String>,
    pub compress_after_days: Option<u32>,
}

/// Where and how log files are written, and how long they are kept.
pub struct LoggingConfig {
    pub base_dir: String,
    pub path_structure: String,
    pub filename_structure: String,
    pub timestamp_format: String,
    pub write_by_default: bool,
    pub app_name: String,
    pub retention: RetentionConfig,
}

/// Tag drawing, level labels, line templates and logging.
pub struct LayoutSection {
    pub tag: TagConfig,
    pub labels: StrMap,
    pub structure: StructureConfig,
    pub logging: LoggingConfig,
}

/// The whole configuration.
pub struct Config {
    pub theme: ThemeSection,
    pub icons: IconsSection,
    pub layout: LayoutSection,
}

/// Default application name used in log paths.
pub fn default_app_name() -> (r: String)
    ensures
        r@ == "hyprink"@,
{
    String::from_str("hyprink")
}

/// Default maximum age of a log file, in days.
pub fn default_max_age_days() -> (r: u32)
    ensures
        r == 30,
{
    30
}

/// Default age, in days, after which logs would be compressed.
pub fn default_compress_after_days() -> (r: Option<u32>)
    ensures
        r == Some(7u32),
{
    Some(7)
}

impl Default for RetentionConfig {
    fn default() -> (r: RetentionConfig)
        ensures
            r.max_age_days == 30,
            r.max_total_size is None,
            r.compress_after_days == Some(7u32),
    {
        RetentionConfig {
            max_age_days: default_max_age_days(),
            max_total_size: None,
            compress_after_days: default_compress_after_days(),
        }
    }
}

/// `dir` joined with the relative path `name`, with one separator between them.
pub open spec fn join_path(dir: Seq<char>, name: Seq<char>) -> Seq<char> {
    if dir.len() == 0 {
        name
    } else if dir.last() == '/' {
        dir + name
    } else {
        dir + seq!['/'] + name
    }
}

pub(crate) fn join(dir: &str, name: &str) -> (r: String)
    ensures
        r@ == join_path(dir@, name@),
{
    let n = dir.unicode_len();
    let mut r = String::from_str(dir);
    if n > 0 && dir.get_char(n - 1) != '/' {
        r.append("/");
        proof {
            reveal_strlit("/");
        }
        assert("/"@ =~= seq!['/']);
    }
    r.append(name);
    r
}

/// The config snapshot file inside the cache directory `cache_dir`.
pub fn cache_file(cache_dir: &str) -> (r: String)
    ensures
        r@ == join_path(cache_dir@, "config.bin"@),
{
    join(cache_dir, "config.bin")
}

/// `path` with a leading `~` replaced by `home`; `None` when that is needed and no
/// home directory is known.
pub open spec fn expanded(path: Seq<char>, home: Option<Seq<char>>) -> Option<Seq<char>> {
    if path.len() > 0 && path[0] == '~' {
        match home {
            Some(h) => Some(h + path.drop_first()),
            None => None,
        }
    } else {
        Some(path)
    }
}

/// The characters of an optional string.
pub open spec fn opt_view(s: Option<&str>) -> Option<Seq<char>> {
    match s {
        Some(x) => Some(x@),
        None => None,
    }
}

/// Expands a leading `~` of `path` to the home directory.
pub fn expand_home(path: &str, home: Option<&str>) -> (r: Option<String>)
    ensures
        r matches Some(s) ==> expanded(path@, opt_view(home)) == Some(s@),
        r is None ==> expanded(path@, opt_view(home)) is None,
{
    let n = path.unicode_len();
    if n > 0 && path.get_char(0) == '~' {
        match home {
            Some(h) => {
                let mut r = String::from_str(h);
                r.append(path.substring_char(1, n));
                assert(path@.subrange(1, n as int) =~= path@.drop_first());
                Some(r)
            },
            None => None,
        }
    } else {
        Some(String::from_str(path))
    }
}

/// A modification time as probed on disk.
pub enum Mtime {
    /// The file does not exist.
    Absent,
    /// The file exists but its time could not be read.
    Unknown,
    /// Nanoseconds since the epoch.
    At(u128),
}

/// Whether an input with modification time `m` makes a snapshot written at `cache` stale.
pub open spec fn invalidates(m: Mtime, cache: u128) -> bool {
    match m {
        Mtime::Absent => false,
        Mtime::Unknown => true,
        Mtime::At(t) => t > cache,
    }
}

/// The snapshot is trusted only when its own time is known and no input
/// (the executable, the source file, any override file) is newer or unreadable.
pub open spec fn fresh(cache: Mtime, exe: Mtime, source: Mtime, overrides: Seq<Mtime>) -> bool {
    match cache {
        Mtime::At(c) => {
            &&& !invalidates(exe, c)
            &&& !invalidates(source, c)
            &&& forall|i: int| 0 <= i < overrides.len() ==> !invalidates(#[trigger] overrides[i], c)
        },
        _ => false,
    }
}

fn invalidates_exec(m: &Mtime, cache: u128) -> (r: bool)
    ensures
        r == invalidates(*m, cache),
{
    match m {
        Mtime::Absent => false,
        Mtime::Unknown => true,
        Mtime::At(t) => *t > cache,
    }
}

/// Decides whether the config snapshot may be used instead of reparsing the source.
pub fn is_cache_fresh(cache: &Mtime, exe: &Mtime, source: &Mtime, overrides: &Vec<Mtime>) -> (r: bool)
    ensures
        r == fresh(*cache, *exe, *source, overrides@),
{
    let c = match cache {
        Mtime::At(c) => *c,
        _ => {
            return false;
        },
    };
    if invalidates_exec(exe, c) || invalidates_exec(source, c) {
        return false;
    }
    let mut i: usize = 0;
    while i < overrides.len()
        invariant
            i <= overrides@.len(),
            *cache == Mtime::At(c),
            !invalidates(*exe, c),
            !invalidates(*source, c),
            forall|j: int| 0 <= j < i ==> !invalidates(#[trigger] overrides@[j], c),
        decreases overrides@.len() - i,
    {
        if invalidates_exec(&overrides[i], c) {
            assert(invalidates(overrides@[i as int], c));
            return false;
        }
        i = i + 1;
    }
    true
}

/// Whether loading reads the snapshot first: not when bypass is forced, and only when fresh.
pub fn reads_cache(force: bool, cache: &Mtime, exe: &Mtime, source: &Mtime, overrides: &Vec<Mtime>) -> (r: bool)
    ensures
        r == (!force && fresh(*cache, *exe, *source, overrides@)),
{
    !force && is_cache_fresh(cache, exe, source, overrides)
}

/// Touching the source file after the snapshot was written makes the next load
/// bypass the snapshot and reparse the source.
pub proof fn lemma_touched_source_bypasses_cache(
    force: bool,
    written: u128,
    touched: u128,
    exe: Mtime,
    overrides: Seq<Mtime>,
)
    requires
        touched > written,
    ensures
        !fresh(Mtime::At(written), exe, Mtime::At(touched), overrides),
        !(!force && fresh(Mtime::At(written), exe, Mtime::At(touched), overrides)),
{
}

} // verus!
