//! The resolver: given the selected mode and what the surrounding process
//! learned from the repository and the configuration store, decide which file
//! to edit and which directory must exist first. All path arithmetic is on
//! plain strings with `/` as the separator.

use crate::text::full_split;
use crate::text::split_all;
use crate::text::views_of;
use vstd::prelude::*;
use vstd::string::StrSliceExecFns;
use vstd::string::StringExecFns;

verus! {

/// Which ignore file an invocation edits: an explicitly named file, the
/// user-wide global excludes file, the repository's internal exclude file, or
/// the `.gitignore` at the root of the working tree. Exactly one is active;
/// the default is the explicit file `.gitignore` in the current directory.
pub enum TargetMode {
    ExplicitFile(String),
    Global,
    Internal,
    Root,
}

/// The mathematical value of a `TargetMode`.
pub enum ModeView {
    ExplicitFile(Seq<char>),
    Global,
    Internal,
    Root,
}

impl View for TargetMode {
    type V = ModeView;

    open spec fn view(&self) -> ModeView {
        match self {
            TargetMode::ExplicitFile(name) => ModeView::ExplicitFile(name@),
            TargetMode::Global => ModeView::Global,
            TargetMode::Internal => ModeView::Internal,
            TargetMode::Root => ModeView::Root,
        }
    }
}

/// What the configuration store said about the global excludes setting:
/// a value, the specific "not found" answer, or any other failure.
pub enum ConfigLookup {
    Found(String),
    Missing,
    Failed(String),
}

/// Why resolution failed.
#[derive(Debug)]
pub enum ResolveError {
    NoConfigDir,
    ConfigStore(String),
    BareRepository,
}

/// A resolved target: the file to edit, and the directory that must be
/// created (with its parents) before the file can exist there, if any.
/// Resolution itself never touches the target file.
pub struct ResolvedTarget {
    pub path: String,
    pub create_dir: Option<String>,
}

/// Joining a name onto a base path: an absolute name stands alone, and a
/// separator is added only when the base does not already end in one.
pub open spec fn join_spec(base: Seq<char>, name: Seq<char>) -> Seq<char> {
    if name.len() > 0 && name[0] == '/' {
        name
    } else if base.len() > 0 && base.last() == '/' {
        base + name
    } else {
        base + seq!['/'] + name
    }
}

/// Join a name onto a base path, as `join_spec` describes.
pub fn join_path(base: &str, name: &str) -> (r: String)
    ensures
        r@ == join_spec(base@, name@),
{
    let nn = name.unicode_len();
    if nn > 0 && name.get_char(0) == '/' {
        return name.to_owned();
    }
    let bn = base.unicode_len();
    let mut out = base.to_owned();
    if !(bn > 0 && base.get_char(bn - 1) == '/') {
        out.append("/");
        proof {
            reveal_strlit("/");
            assert("/"@ =~= seq!['/']);
        }
    }
    out.append(name);
    out
}

/// The non-empty `/`-separated segments of a path, in order.
pub open spec fn keep_segs(ss: Seq<Seq<char>>) -> Seq<Seq<char>>
    decreases ss.len(),
{
    if ss.len() == 0 {
        Seq::<Seq<char>>::empty()
    } else {
        let prev = keep_segs(ss.drop_last());
        if ss.last().len() > 0 {
            prev.push(ss.last())
        } else {
            prev
        }
    }
}

/// Segments joined with single `/` separators.
pub open spec fn join_segments(ss: Seq<Seq<char>>) -> Seq<char>
    decreases ss.len(),
{
    if ss.len() == 0 {
        Seq::<char>::empty()
    } else if ss.len() == 1 {
        ss[0]
    } else {
        ss[0] + seq!['/'] + join_segments(ss.drop_first())
    }
}

/// A path rebuilt from its own segments: repeated separators collapse to
/// one, a trailing separator is dropped, and a leading one is kept.
pub open spec fn fix_path_spec(s: Seq<char>) -> Seq<char> {
    let joined = join_segments(keep_segs(full_split(s, '/')));
    if s.len() > 0 && s[0] == '/' {
        seq!['/'] + joined
    } else {
        joined
    }
}

proof fn lemma_join_push(ss: Seq<Seq<char>>, x: Seq<char>)
    requires
        ss.len() > 0,
    ensures
        join_segments(ss.push(x)) == join_segments(ss) + seq!['/'] + x,
    decreases ss.len(),
{
    if ss.len() == 1 {
        let p = ss.push(x);
        assert(p[0] == ss[0]);
        assert(p.drop_first() =~= seq![x]);
        assert(join_segments(seq![x]) == x);
        assert(join_segments(p) == ss[0] + seq!['/'] + x);
        assert(join_segments(ss) == ss[0]);
    } else {
        let p = ss.push(x);
        assert(p[0] == ss[0]);
        assert(p.drop_first() =~= ss.drop_first().push(x));
        lemma_join_push(ss.drop_first(), x);
        let r1 = join_segments(ss.drop_first());
        assert(ss[0] + seq!['/'] + (r1 + seq!['/'] + x) =~= (ss[0] + seq!['/'] + r1) + seq!['/']
            + x);
    }
}

/// Rebuild a path from its segments, as `fix_path_spec` describes: some
/// sources of repository paths report separator artifacts (repeated or
/// trailing separators), which this removes.
pub fn fix_path(path: &str) -> (r: String)
    ensures
        r@ == fix_path_spec(path@),
{
    let n = path.unicode_len();
    let parts = split_all(path, '/');
    let ghost segs = views_of(parts@);
    let mut out = String::new();
    let abs = n > 0 && path.get_char(0) == '/';
    let ghost lead: Seq<char> = if abs {
        seq!['/']
    } else {
        Seq::<char>::empty()
    };
    if abs {
        out.append("/");
        proof {
            reveal_strlit("/");
            assert("/"@ =~= seq!['/']);
        }
    }
    let mut first: bool = true;
    let mut i: usize = 0;
    proof {
        assert(segs.take(0) =~= Seq::<Seq<char>>::empty());
        assert(out@ =~= lead + join_segments(keep_segs(segs.take(0))));
    }
    while i < parts.len()
        invariant
            0 <= i <= parts@.len(),
            segs == views_of(parts@),
            segs == full_split(path@, '/'),
            out@ == lead + join_segments(keep_segs(segs.take(i as int))),
            first == (keep_segs(segs.take(i as int)).len() == 0),
        decreases parts@.len() - i,
    {
        let ghost prev = keep_segs(segs.take(i as int));
        proof {
            let stepped = segs.take(i + 1);
            assert(stepped =~= segs.take(i as int).push(segs[i as int]));
            assert(stepped.drop_last() =~= segs.take(i as int));
            assert(stepped.last() == segs[i as int]);
            assert(segs[i as int] == parts@[i as int]@);
        }
        if parts[i].as_str().unicode_len() > 0 {
            if !first {
                out.append("/");
                proof {
                    reveal_strlit("/");
                    assert("/"@ =~= seq!['/']);
                }
            }
            out.append(parts[i].as_str());
            proof {
                let x = segs[i as int];
                assert(keep_segs(segs.take(i + 1)) == prev.push(x));
                if prev.len() == 0 {
                    assert(prev.push(x) =~= seq![x]);
                    assert(join_segments(seq![x]) == x);
                    assert(lead + join_segments(prev) + x =~= lead + x);
                } else {
                    lemma_join_push(prev, x);
                    assert(lead + join_segments(prev) + seq!['/'] + x =~= lead + (join_segments(
                        prev,
                    ) + seq!['/'] + x));
                }
            }
            first = false;
        } else {
            proof {
                assert(keep_segs(segs.take(i + 1)) == prev);
            }
        }
        i = i + 1;
    }
    proof {
        assert(segs.take(parts@.len() as int) =~= segs);
    }
    out
}

/// Resolve an explicitly named file against the current working directory.
/// There is no existence check: the file need not exist yet.
pub fn resolve_explicit(cwd: &str, name: &str) -> (r: String)
    ensures
        r@ == join_spec(cwd@, name@),
{
    join_path(cwd, name)
}

/// Resolve the global excludes file from the configuration store's answer. A
/// configured value is used verbatim. When the setting is absent, the
/// fallback is `git/ignore` under the user configuration directory, which
/// must then be created; no configuration directory at all is an error. Any
/// other store failure is propagated as fatal.
pub fn resolve_global(lookup: ConfigLookup, config_dir: Option<String>) -> (r: Result<
    ResolvedTarget,
    ResolveError,
>)
    ensures
        match lookup {
            ConfigLookup::Found(p) => {
                &&& r matches Ok(t)
                &&& t.path@ == p@
                &&& t.create_dir is None
            },
            ConfigLookup::Missing => match config_dir {
                Some(d) => {
                    &&& r matches Ok(t)
                    &&& t.path@ == join_spec(join_spec(d@, "git"@), "ignore"@)
                    &&& t.create_dir matches Some(c) && c@ == join_spec(d@, "git"@)
                },
                None => r matches Err(e) && e is NoConfigDir,
            },
            ConfigLookup::Failed(m) => {
                &&& r matches Err(e)
                &&& e matches ResolveError::ConfigStore(mm) && mm@ == m@
            },
        },
{
    match lookup {
        ConfigLookup::Found(p) => Ok(ResolvedTarget { path: p, create_dir: None }),
        ConfigLookup::Missing => match config_dir {
            Some(d) => {
                let dir = join_path(d.as_str(), "git");
                let path = join_path(dir.as_str(), "ignore");
                Ok(ResolvedTarget { path, create_dir: Some(dir) })
            },
            None => Err(ResolveError::NoConfigDir),
        },
        ConfigLookup::Failed(m) => Err(ResolveError::ConfigStore(m)),
    }
}

/// Resolve the repository's internal exclude file from its metadata
/// directory: `info/exclude` under the repaired metadata path, with the
/// `info` directory created if missing.
pub fn resolve_internal(repo_dir: &str) -> (r: ResolvedTarget)
    ensures
        r.path@ == join_spec(join_spec(fix_path_spec(repo_dir@), "info"@), "exclude"@),
        r.create_dir matches Some(c) && c@ == join_spec(fix_path_spec(repo_dir@), "info"@),
{
    let fixed = fix_path(repo_dir);
    let dir = join_path(fixed.as_str(), "info");
    let path = join_path(dir.as_str(), "exclude");
    ResolvedTarget { path, create_dir: Some(dir) }
}

/// Resolve the root ignore file from the repository's working directory:
/// `.gitignore` at the top of the working tree. A bare repository has no
/// working tree and is an error.
pub fn resolve_root(workdir: Option<String>) -> (r: Result<String, ResolveError>)
    ensures
        match workdir {
            None => r matches Err(e) && e is BareRepository,
            Some(p) => r matches Ok(s) && s@ == join_spec(p@, ".gitignore"@),
        },
{
    match workdir {
        None => Err(ResolveError::BareRepository),
        Some(p) => Ok(join_path(p.as_str(), ".gitignore")),
    }
}

} // verus!
