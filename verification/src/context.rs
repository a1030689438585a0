//! The dotfiles layout: how names in the dotfiles repo map to paths under the
//! home directory, and back.
use vstd::prelude::*;
use crate::text::{to_chars, from_chars, replace_chars, starts_with, replace_all, has_prefix, chars_eq, append_chars};
use crate::paths::{slash, is_abs, path_join, normalize, join_path, normalize_chars};
use crate::text::{trim, trim_chars};
use crate::error::DotsymError;

verus! {

/// The user's configuration (`dotsym.toml`).
pub struct Config {
    /// The string that stands for `/` (and for a leading `.`) in repo names.
    pub separator: String,
    /// The dotfiles directory; `~/` is replaced by the home directory.
    pub dir: String,
    /// A host name to use in place of the detected one.
    pub hostname: Option<String>,
}

/// Everything the commands need: the configuration, the host name and the
/// home directory.
pub struct DotsymContext {
    pub config: Config,
    pub hostname: String,
    pub home_dir: String,
}

/// The name in the repo for a path under home: a leading separator stands for `.`,
/// every other separator for `/`; the bare separator names the home directory.
pub open spec fn expand_spec(path: Seq<char>, sep: Seq<char>) -> Seq<char> {
    if path == sep {
        Seq::empty()
    } else if has_prefix(path, sep) {
        replace_all(seq!['.'] + path.skip(sep.len() as int), sep, slash())
    } else {
        replace_all(path, sep, slash())
    }
}

/// The repo name for a path relative to home: a leading `.` becomes the separator,
/// every `/` becomes the separator; the home directory itself becomes the bare
/// separator.
pub open spec fn collapse_spec(rel: Seq<char>, sep: Seq<char>) -> Seq<char> {
    if rel.len() == 0 {
        sep
    } else if rel[0] == '.' {
        replace_all(sep + rel.skip(1), slash(), sep)
    } else {
        replace_all(rel, slash(), sep)
    }
}

/// `dir` with a leading `~/` spelled out as `<home>/`.
pub open spec fn expand_home_prefix_spec(dir: Seq<char>, home: Seq<char>) -> Seq<char> {
    if has_prefix(dir, "~/"@) {
        home + slash() + dir.skip(2)
    } else {
        dir
    }
}

pub fn expand_home_prefix(dir: &str, home: &str) -> (r: String)
    ensures
        r@ == expand_home_prefix_spec(dir@, home@),
{
    let d = to_chars(dir);
    let p = to_chars("~/");
    if starts_with(&d, &p) {
        proof {
            reveal_strlit("~/");
        }
        let mut out = to_chars(home);
        out.push('/');
        let mut i: usize = 2;
        while i < d.len()
            invariant
                2 <= i <= d@.len(),
                out@ == home@ + slash() + d@.subrange(2, i as int),
            decreases d@.len() - i,
        {
            out.push(d[i]);
            assert(d@.subrange(2, i + 1) == d@.subrange(2, i as int).push(d@[i as int]));
            i = i + 1;
        }
        assert(d@.subrange(2, d@.len() as int) == d@.skip(2));
        from_chars(&out)
    } else {
        from_chars(&d)
    }
}

/// The configured dotfiles directory: a leading `~/` is spelled out as the home
/// directory and a `/`; any other directory is taken as it is.
pub open spec fn config_dir_spec(dir: Seq<char>, home: Seq<char>) -> Seq<char> {
    expand_home_prefix_spec(dir, home)
}

/// A path typed by the user, made absolute and normalized: `~` and a leading `~/`
/// stand for home, and a relative path is taken relative to `cwd`.
pub open spec fn resolve_spec(raw: Seq<char>, home: Seq<char>, cwd: Seq<char>) -> Seq<char> {
    let expanded = if raw == seq!['~'] {
        home
    } else if has_prefix(raw, seq!['~', '/']) {
        path_join(home, raw.skip(2))
    } else {
        raw
    };
    let absolute = if is_abs(expanded) { expanded } else { path_join(cwd, expanded) };
    normalize(absolute)
}

/// Lexically normalizes a path: `.` and `..` are resolved without touching the
/// file system or following symlinks.
pub fn logical_normalize(path: &str) -> (r: String)
    ensures
        r@ == normalize(path@),
{
    let p = to_chars(path);
    let n = normalize_chars(&p);
    from_chars(&n)
}

fn slash_vec() -> (r: Vec<char>)
    ensures
        r@ == slash(),
{
    let mut v: Vec<char> = Vec::new();
    v.push('/');
    assert(v@ =~= slash());
    v
}

impl DotsymContext {
    pub open spec fn separator_spec(&self) -> Seq<char> {
        self.config.separator@
    }

    /// Turns a repo name into the path it stands for, relative to home.
    pub fn expand_path(&self, path: &str) -> (r: String)
        ensures
            r@ == expand_spec(path@, self.config.separator@),
    {
        let p = to_chars(path);
        let sep = to_chars(self.config.separator.as_str());
        if chars_eq(&p, &sep) {
            return String::new();
        }
        let slash = slash_vec();
        if starts_with(&p, &sep) {
            let mut lead: Vec<char> = Vec::new();
            lead.push('.');
            let mut i = sep.len();
            while i < p.len()
                invariant
                    sep@.len() <= i <= p@.len(),
                    lead@ == seq!['.'] + p@.subrange(sep@.len() as int, i as int),
                decreases p@.len() - i,
            {
                lead.push(p[i]);
                assert(p@.subrange(sep@.len() as int, i + 1) == p@.subrange(sep@.len() as int, i as int).push(p@[i as int]));
                i = i + 1;
            }
            assert(p@.subrange(sep@.len() as int, p@.len() as int) == p@.skip(sep@.len() as int));
            let r = replace_chars(&lead, &sep, &slash);
            from_chars(&r)
        } else {
            let r = replace_chars(&p, &sep, &slash);
            from_chars(&r)
        }
    }

    /// Turns a path relative to home into its repo name (the inverse of `expand_path`).
    pub fn collapse_path(&self, rel: &str) -> (r: String)
        ensures
            r@ == collapse_spec(rel@, self.config.separator@),
    {
        let p = to_chars(rel);
        let sep = to_chars(self.config.separator.as_str());
        if p.len() == 0 {
            return from_chars(&sep);
        }
        let slash = slash_vec();
        if p[0] == '.' {
            let mut lead = sep.clone();
            let mut i: usize = 1;
            while i < p.len()
                invariant
                    1 <= i <= p@.len(),
                    lead@ == sep@ + p@.subrange(1, i as int),
                decreases p@.len() - i,
            {
                lead.push(p[i]);
                assert(p@.subrange(1, i + 1) == p@.subrange(1, i as int).push(p@[i as int]));
                i = i + 1;
            }
            assert(p@.subrange(1, p@.len() as int) == p@.skip(1));
            let r = replace_chars(&lead, &slash, &sep);
            from_chars(&r)
        } else {
            let r = replace_chars(&p, &slash, &sep);
            from_chars(&r)
        }
    }

    /// The configured dotfiles directory, with a leading `~/` expanded.
    pub fn config_dir(&self) -> (r: String)
        ensures
            r@ == config_dir_spec(self.config.dir@, self.home_dir@),
    {
        expand_home_prefix(self.config.dir.as_str(), self.home_dir.as_str())
    }

    /// Makes a path typed by the user absolute and normalizes it, expanding a
    /// leading `~` to the home directory.
    pub fn resolve_target(&self, raw: &str, cwd: &str) -> (r: String)
        ensures
            r@ == resolve_spec(raw@, self.home_dir@, cwd@),
    {
        let rawv = to_chars(raw);
        let home = to_chars(self.home_dir.as_str());
        let cwdv = to_chars(cwd);
        let expanded = if rawv.len() == 1 && rawv[0] == '~' {
            assert(rawv@ =~= seq!['~']);
            home
        } else if rawv.len() >= 2 && rawv[0] == '~' && rawv[1] == '/' {
            assert(rawv@ != seq!['~']);
            assert(rawv@.take(2) =~= seq!['~', '/']);
            let mut rest: Vec<char> = Vec::new();
            let mut i: usize = 2;
            while i < rawv.len()
                invariant
                    2 <= i <= rawv@.len(),
                    rest@ == rawv@.subrange(2, i as int),
                decreases rawv@.len() - i,
            {
                rest.push(rawv[i]);
                assert(rawv@.subrange(2, i + 1) == rawv@.subrange(2, i as int).push(rawv@[i as int]));
                i = i + 1;
            }
            assert(rawv@.subrange(2, rawv@.len() as int) == rawv@.skip(2));
            join_path(&home, &rest)
        } else {
            proof {
                if rawv@ == seq!['~'] {
                    assert(rawv@.len() == 1);
                }
                if has_prefix(rawv@, seq!['~', '/']) {
                    assert(rawv@.take(2)[0] == '~');
                    assert(rawv@.take(2)[1] == '/');
                }
            }
            rawv
        };
        let absolute = if expanded.len() > 0 && expanded[0] == '/' {
            expanded
        } else {
            join_path(&cwdv, &expanded)
        };
        let n = normalize_chars(&absolute);
        from_chars(&n)
    }
}


/// Where the configuration file lives: `.config/dotsym/dotsym.toml` under home.
pub fn config_file_path(home: &str) -> (r: String)
    ensures
        r@ == path_join(home@, ".config/dotsym/dotsym.toml"@),
{
    let h = to_chars(home);
    let rel = to_chars(".config/dotsym/dotsym.toml");
    let p = join_path(&h, &rel);
    from_chars(&p)
}

/// No character of `a` occurs in `b`.
pub open spec fn disjoint_chars(a: Seq<char>, b: Seq<char>) -> bool {
    forall|i: int, j: int| 0 <= i < a.len() && 0 <= j < b.len() ==> a[i] != b[j]
}

/// Replacing `/` by `sep` and then `sep` by `/` gives back the original, when no
/// character of it occurs in `sep` and `sep` holds no `/`.
proof fn lemma_replace_back(t: Seq<char>, sep: Seq<char>)
    requires
        sep.len() > 0,
        disjoint_chars(slash(), sep),
        disjoint_chars(t, sep),
    ensures
        replace_all(replace_all(t, slash(), sep), sep, slash()) == t,
    decreases t.len(),
{
    if t.len() > 0 {
        let rest = t.skip(1);
        assert(disjoint_chars(rest, sep)) by {
            assert forall|i: int, j: int| 0 <= i < rest.len() && 0 <= j < sep.len() implies rest[i] != sep[j] by {
                assert(rest[i] == t[i + 1]);
            }
        }
        lemma_replace_back(rest, sep);
        let r1 = replace_all(rest, slash(), sep);
        if t[0] == '/' {
            assert(has_prefix(t, slash())) by {
                assert(t.take(1) =~= slash());
            }
            assert(replace_all(t, slash(), sep) == sep + r1);
            assert((sep + r1).take(sep.len() as int) =~= sep);
            assert((sep + r1).skip(sep.len() as int) =~= r1);
            assert(replace_all(sep + r1, sep, slash()) == slash() + replace_all(r1, sep, slash()));
            assert(t =~= slash() + rest);
        } else {
            assert(!has_prefix(t, slash())) by {
                if has_prefix(t, slash()) {
                    assert(t.take(1)[0] == slash()[0]);
                }
            }
            assert(replace_all(t, slash(), sep) == seq![t[0]] + r1);
            let c = seq![t[0]] + r1;
            assert(c[0] == t[0]);
            assert(t[0] != sep[0]);
            assert(!has_prefix(c, sep)) by {
                if has_prefix(c, sep) {
                    assert(c.take(sep.len() as int)[0] == sep[0]);
                }
            }
            assert(c.skip(1) =~= r1);
            assert(t =~= seq![t[0]] + rest);
        }
    }
}

/// Replacing a single-character pattern distributes over a leading piece that
/// holds no such character.
proof fn lemma_replace_prefix_free(a: Seq<char>, b: Seq<char>, to: Seq<char>)
    requires
        disjoint_chars(a, slash()),
    ensures
        replace_all(a + b, slash(), to) == a + replace_all(b, slash(), to),
    decreases a.len(),
{
    if a.len() > 0 {
        let a1 = a.skip(1);
        assert(disjoint_chars(a1, slash())) by {
            assert forall|i: int, j: int| 0 <= i < a1.len() && 0 <= j < slash().len() implies a1[i] != slash()[j] by {
                assert(a1[i] == a[i + 1]);
            }
        }
        lemma_replace_prefix_free(a1, b, to);
        let ab = a + b;
        assert(ab[0] == a[0]);
        assert(a[0] != slash()[0]);
        assert(!has_prefix(ab, slash())) by {
            if has_prefix(ab, slash()) {
                assert(ab.take(1)[0] == slash()[0]);
            }
        }
        assert(ab.skip(1) =~= a1 + b);
        assert(a =~= seq![a[0]] + a1);
    }
}

/// Collapsing a path relative to home and expanding the result gives the path back
/// (`collapse_path` is the inverse of `expand_path`), for a relative path other
/// than `.`, none of whose characters occurs in a separator that is not empty and
/// holds no `/`.
pub proof fn lemma_expand_collapse_roundtrip(rel: Seq<char>, sep: Seq<char>)
    requires
        sep.len() > 0,
        disjoint_chars(slash(), sep),
        disjoint_chars(rel, sep),
        !is_abs(rel),
        rel != seq!['.'],
    ensures
        expand_spec(collapse_spec(rel, sep), sep) == rel,
{
    if rel.len() == 0 {
    } else if rel[0] == '.' {
        let t = rel.skip(1);
        assert(disjoint_chars(t, sep)) by {
            assert forall|i: int, j: int| 0 <= i < t.len() && 0 <= j < sep.len() implies t[i] != sep[j] by {
                assert(t[i] == rel[i + 1]);
            }
        }
        assert(disjoint_chars(sep, slash()));
        lemma_replace_prefix_free(sep, t, sep);
        let r = replace_all(t, slash(), sep);
        let c = sep + r;
        assert(collapse_spec(rel, sep) == c);
        if t.len() == 0 {
            assert(rel =~= seq!['.']);
        }
        assert(r.len() > 0) by {
            if t[0] == '/' {
                assert(has_prefix(t, slash())) by {
                    assert(t.take(1) =~= slash());
                }
            } else {
                assert(!has_prefix(t, slash())) by {
                    if has_prefix(t, slash()) {
                        assert(t.take(1)[0] == slash()[0]);
                    }
                }
            }
        }
        assert(c != sep) by {
            assert(c.len() > sep.len());
        }
        assert(has_prefix(c, sep)) by {
            assert(c.take(sep.len() as int) =~= sep);
        }
        assert(c.skip(sep.len() as int) =~= r);
        let d = seq!['.'] + r;
        assert(d[0] == '.');
        assert(rel[0] != sep[0]);
        assert(!has_prefix(d, sep)) by {
            if has_prefix(d, sep) {
                assert(d.take(sep.len() as int)[0] == sep[0]);
            }
        }
        assert(d.skip(1) =~= r);
        lemma_replace_back(t, sep);
        assert(rel =~= seq!['.'] + t);
    } else {
        lemma_replace_back(rel, sep);
        let c = replace_all(rel, slash(), sep);
        assert(rel[0] != '/');
        assert(!has_prefix(rel, slash())) by {
            if has_prefix(rel, slash()) {
                assert(rel.take(1)[0] == slash()[0]);
            }
        }
        assert(c == seq![rel[0]] + replace_all(rel.skip(1), slash(), sep));
        assert(c[0] == rel[0]);
        assert(rel[0] != sep[0]);
        assert(c != sep);
        assert(!has_prefix(c, sep)) by {
            if has_prefix(c, sep) {
                assert(c.take(sep.len() as int)[0] == sep[0]);
            }
        }
    }
}


/// Replacing `sep` by `/` and then `/` by `sep` gives back a name without `/`.
proof fn lemma_replace_there_and_back(p: Seq<char>, sep: Seq<char>)
    requires
        sep.len() > 0,
        !p.contains('/'),
    ensures
        replace_all(replace_all(p, sep, slash()), slash(), sep) == p,
    decreases p.len(),
{
    if p.len() > 0 {
        if has_prefix(p, sep) {
            let rest = p.skip(sep.len() as int);
            assert(!rest.contains('/')) by {
                if rest.contains('/') {
                    let k = choose|k: int| 0 <= k < rest.len() && rest[k] == '/';
                    assert(p[k + sep.len()] == '/');
                }
            }
            lemma_replace_there_and_back(rest, sep);
            let r1 = replace_all(rest, sep, slash());
            let r = slash() + r1;
            assert(replace_all(p, sep, slash()) == r);
            assert(has_prefix(r, slash())) by {
                assert(r.take(1) =~= slash());
            }
            assert(r.skip(1) =~= r1);
            assert(p =~= sep + rest) by {
                assert(p.take(sep.len() as int) == sep);
            }
        } else {
            let rest = p.skip(1);
            assert(!rest.contains('/')) by {
                if rest.contains('/') {
                    let k = choose|k: int| 0 <= k < rest.len() && rest[k] == '/';
                    assert(p[k + 1] == '/');
                }
            }
            lemma_replace_there_and_back(rest, sep);
            let r1 = replace_all(rest, sep, slash());
            let r = seq![p[0]] + r1;
            assert(replace_all(p, sep, slash()) == r);
            assert(p[0] != '/') by {
                if p[0] == '/' {
                    assert(p.contains('/'));
                }
            }
            assert(!has_prefix(r, slash())) by {
                if has_prefix(r, slash()) {
                    assert(r.take(1)[0] == slash()[0]);
                }
            }
            assert(r.skip(1) =~= r1);
            assert(p =~= seq![p[0]] + rest);
        }
    }
}

/// Expanding a name of the repo and collapsing the result gives the name back
/// (`expand_path` is the inverse of `collapse_path`), for a name that is not empty,
/// holds no `/` and does not begin with `.`, with a separator that is not empty,
/// holds no `/` and does not begin with `.`.
pub proof fn lemma_collapse_expand_roundtrip(name: Seq<char>, sep: Seq<char>)
    requires
        sep.len() > 0,
        disjoint_chars(slash(), sep),
        sep[0] != '.',
        name.len() > 0,
        !name.contains('/'),
        name[0] != '.',
    ensures
        collapse_spec(expand_spec(name, sep), sep) == name,
{
    assert(disjoint_chars(sep, slash())) by {
        assert forall|i: int, j: int| 0 <= i < sep.len() && 0 <= j < slash().len() implies sep[i] != slash()[j] by {
            assert(slash()[j] != sep[i]);
        }
    }
    if name == sep {
    } else if has_prefix(name, sep) {
        let rest = name.skip(sep.len() as int);
        assert(!rest.contains('/')) by {
            if rest.contains('/') {
                let k = choose|k: int| 0 <= k < rest.len() && rest[k] == '/';
                assert(name[k + sep.len()] == '/');
            }
        }
        let d = seq!['.'] + rest;
        assert(!has_prefix(d, sep)) by {
            if has_prefix(d, sep) {
                assert(d.take(sep.len() as int)[0] == sep[0]);
            }
        }
        assert(d.skip(1) =~= rest);
        let r1 = replace_all(rest, sep, slash());
        let e = seq!['.'] + r1;
        assert(expand_spec(name, sep) == e);
        assert(e[0] == '.');
        assert(e.skip(1) =~= r1);
        lemma_replace_prefix_free(sep, r1, sep);
        lemma_replace_there_and_back(rest, sep);
        assert(name =~= sep + rest) by {
            assert(name.take(sep.len() as int) == sep);
        }
    } else {
        lemma_replace_there_and_back(name, sep);
        let rest = name.skip(1);
        let e = replace_all(name, sep, slash());
        assert(e == seq![name[0]] + replace_all(rest, sep, slash()));
        assert(e[0] == name[0]);
    }
}

/// `dirs::home_dir`, the current user's home directory as the environment gives it
/// (`$HOME`, or the password database, on Linux), as a string. What it returns
/// depends on the environment, so nothing is promised of the result.
#[verifier::external_body]
fn home_dir_from_env() -> (r: Option<String>) {
    dirs::home_dir().map(|p| p.to_string_lossy().into_owned())
}

impl Config {
    pub fn clone_config(&self) -> (r: Config)
        ensures
            r == *self,
    {
        Config {
            separator: self.separator.clone(),
            dir: self.dir.clone(),
            hostname: match &self.hostname {
                Some(h) => Some(h.clone()),
                None => None,
            },
        }
    }
}

/// The host name in effect: the one given, else the one in the configuration,
/// else the detected one with surrounding whitespace removed, else `unknown`.
pub open spec fn hostname_spec(given: Option<String>, config: Option<String>, detected: Option<String>) -> Seq<
    char,
> {
    match given {
        Some(h) => h@,
        None => match config {
            Some(h) => h@,
            None => match detected {
                Some(d) => trim(d@),
                None => "unknown"@,
            },
        },
    }
}

impl DotsymContext {
    /// Builds the context from its parts: the host name as `hostname_spec` says,
    /// and the home directory given, which must be known.
    pub fn from_parts(
        config: Config,
        hostname: Option<String>,
        home_dir: Option<String>,
        detected_hostname: Option<String>,
    ) -> (r: Result<DotsymContext, DotsymError>)
        ensures
            match home_dir {
                Some(h) => r matches Ok(c) && c.home_dir == h && c.config == config
                    && c.hostname@ == hostname_spec(hostname, config.hostname, detected_hostname),
                None => r matches Err(e) && e is HomeDirectoryNotFound,
            },
    {
        let host = match hostname {
            Some(h) => h,
            None => match &config.hostname {
                Some(h) => h.clone(),
                None => match detected_hostname {
                    Some(d) => {
                        let dv = to_chars(d.as_str());
                        let t = trim_chars(&dv);
                        from_chars(&t)
                    },
                    None => "unknown".to_string(),
                },
            },
        };
        match home_dir {
            Some(h) => Ok(DotsymContext { config, hostname: host, home_dir: h }),
            None => Err(DotsymError::HomeDirectoryNotFound),
        }
    }

    /// Builds the context: the host name given, else the configured one, else the
    /// detected one (trimmed), else `unknown`; the home directory given, else the
    /// one the environment names (an error when there is none).
    pub fn new(
        config: Config,
        hostname: Option<String>,
        home_dir: Option<String>,
        detected_hostname: Option<String>,
    ) -> (r: Result<DotsymContext, DotsymError>)
        ensures
            r matches Ok(c) ==> c.config == config && c.hostname@ == hostname_spec(
                hostname,
                config.hostname,
                detected_hostname,
            ),
            home_dir matches Some(h) ==> r matches Ok(c) && c.home_dir == h,
            r matches Err(e) ==> e is HomeDirectoryNotFound && home_dir is None,
    {
        let home = match home_dir {
            Some(h) => Some(h),
            None => home_dir_from_env(),
        };
        DotsymContext::from_parts(config, hostname, home, detected_hostname)
    }
}


/// A path resolved against an absolute working directory is absolute, and is
/// already normalized.
pub proof fn lemma_resolve_absolute_normalized(raw: Seq<char>, home: Seq<char>, cwd: Seq<char>)
    requires
        is_abs(cwd),
    ensures
        is_abs(resolve_spec(raw, home, cwd)),
        normalize(resolve_spec(raw, home, cwd)) == resolve_spec(raw, home, cwd),
{
    let expanded = if raw == seq!['~'] {
        home
    } else if has_prefix(raw, seq!['~', '/']) {
        path_join(home, raw.skip(2))
    } else {
        raw
    };
    let absolute = if is_abs(expanded) { expanded } else { path_join(cwd, expanded) };
    assert(is_abs(absolute)) by {
        if !is_abs(expanded) {
            assert(absolute[0] == cwd[0]);
        }
    }
    assert(normalize(absolute)[0] == '/');
    crate::path_laws::lemma_normalize_idempotent(absolute);
}

} // verus!
