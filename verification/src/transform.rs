//! The transform cache of dev mode: transformed modules kept by path and
//! reused while their source is unchanged; and the removal of stylesheet
//! imports from transformed code.
use vstd::prelude::*;
use vstd::hash_map::StringHashMap;
use crate::text;
use crate::paths;

verus! {

/// Whether a trimmed line imports a stylesheet: it starts with `import `
/// and ends with a quoted `.css`, `.scss`, `.sass` or `.less` path and `;`.
pub open spec fn is_css_import_spec(line: Seq<char>) -> bool {
    text::starts_with(line, "import "@) && (text::ends_with(line, ".css\";"@) || text::ends_with(line, ".css';"@)
        || text::ends_with(line, ".scss\";"@) || text::ends_with(line, ".scss';"@) || text::ends_with(
        line,
        ".sass\";"@,
    ) || text::ends_with(line, ".sass';"@) || text::ends_with(line, ".less\";"@) || text::ends_with(
        line,
        ".less';"@,
    ))
}

/// A statement importing a stylesheet (`import`, then anything, then a
/// path ending in `.css`, `.scss`, `.sass` or `.less`, closed by either
/// quote, and `;`) is recognized as one; a line not starting with
/// `import ` never is.
pub proof fn lemma_css_import_lines(m: Seq<char>, ext: Seq<char>, q: char, line: Seq<char>)
    ensures
        (ext == "css"@ || ext == "scss"@ || ext == "sass"@ || ext == "less"@) && (q == '"' || q == '\'')
            ==> is_css_import_spec("import "@ + m + seq!['.'] + ext + seq![q, ';']),
        !text::starts_with(line, "import "@) ==> !is_css_import_spec(line),
{
    if (ext == "css"@ || ext == "scss"@ || ext == "sass"@ || ext == "less"@) && (q == '"' || q == '\'') {
        reveal_strlit("import ");
        reveal_strlit("css");
        reveal_strlit("scss");
        reveal_strlit("sass");
        reveal_strlit("less");
        reveal_strlit(".css\";");
        reveal_strlit(".css';");
        reveal_strlit(".scss\";");
        reveal_strlit(".scss';");
        reveal_strlit(".sass\";");
        reveal_strlit(".sass';");
        reveal_strlit(".less\";");
        reveal_strlit(".less';");
        let suf = seq!['.'] + ext + seq![q, ';'];
        let l = "import "@ + m + suf;
        assert(l.subrange(0, 7) =~= "import "@);
        assert(text::starts_with(l, "import "@));
        assert(l.subrange(l.len() - suf.len(), l.len() as int) =~= suf);
        assert(text::ends_with(l, suf));
        assert(l =~= "import "@ + m + seq!['.'] + ext + seq![q, ';']);
        if ext == "css"@ {
            if q == '"' { assert(suf =~= ".css\";"@); } else { assert(suf =~= ".css';"@); }
        } else if ext == "scss"@ {
            if q == '"' { assert(suf =~= ".scss\";"@); } else { assert(suf =~= ".scss';"@); }
        } else if ext == "sass"@ {
            if q == '"' { assert(suf =~= ".sass\";"@); } else { assert(suf =~= ".sass';"@); }
        } else {
            if q == '"' { assert(suf =~= ".less\";"@); } else { assert(suf =~= ".less';"@); }
        }
    }
}

fn ends_with_exec(s: &Vec<char>, suffix: &str) -> (r: bool)
    ensures
        r == text::ends_with(s@, suffix@),
{
    let b = text::chars_of(suffix);
    if b.len() > s.len() {
        return false;
    }
    text::occurs_at_exec(s, s.len() - b.len(), &b)
}

/// Whether a line is a stylesheet import statement.
pub fn is_css_import(line: &str) -> (r: bool)
    ensures
        r == is_css_import_spec(line@),
{
    let l = text::chars_of(line);
    let imp = text::chars_of("import ");
    if !text::occurs_at_exec(&l, 0, &imp) {
        return false;
    }
    ends_with_exec(&l, ".css\";") || ends_with_exec(&l, ".css';") || ends_with_exec(&l, ".scss\";")
        || ends_with_exec(&l, ".scss';") || ends_with_exec(&l, ".sass\";") || ends_with_exec(&l, ".sass';")
        || ends_with_exec(&l, ".less\";") || ends_with_exec(&l, ".less';")
}

/// The lines kept, each followed by a newline; a stylesheet import is
/// replaced by an empty line, so line numbers stay.
pub open spec fn stripped_lines(ls: Seq<Seq<char>>) -> Seq<char>
    decreases ls.len(),
{
    if ls.len() == 0 {
        Seq::empty()
    } else {
        stripped_lines(ls.drop_last()) + if is_css_import_spec(text::trim(ls.last())) {
            seq!['\n']
        } else {
            ls.last() + seq!['\n']
        }
    }
}

/// What the transform gives for compiled code: the code with its CSS
/// import lines blanked (see `strip_css_imports`).
pub open spec fn esm_output(code: Seq<char>) -> Seq<char> {
    stripped_lines(text::lines(code))
}

/// Strips stylesheet import statements from generated code.
pub fn strip_css_imports(code: &str) -> (r: String)
    ensures
        r@ == stripped_lines(text::lines(code@)),
{
    let c = text::chars_of(code);
    let ls = text::split_lines(&c);
    let ghost lv = text::lines(c@);
    let mut result = String::new();
    let mut i: usize = 0;
    while i < ls.len()
        invariant
            i <= ls@.len(),
            ls@.len() == lv.len(),
            lv == text::lines(code@),
            forall|k: int| 0 <= k < ls@.len() ==> (#[trigger] ls@[k])@ == lv[k],
            result@ == stripped_lines(lv.take(i as int)),
        decreases ls.len() - i,
    {
        proof {
            assert(lv.take(i + 1).drop_last() =~= lv.take(i as int));
            assert(lv.take(i + 1).last() == lv[i as int]);
        }
        let t = text::trim_exec(&ls[i]);
        let ts = text::string_of(&t);
        if is_css_import(ts.as_str()) {
            text::push_char(&mut result, '\n');
        } else {
            text::push_chars(&mut result, &ls[i]);
            text::push_char(&mut result, '\n');
        }
        i += 1;
    }
    proof {
        assert(lv.take(i as int) =~= lv);
    }
    result
}

/// The change-detection hash of a source text.
pub uninterp spec fn source_hash(s: Seq<char>) -> u64;

/// `BuildHasher::hash_one` with `DefaultHasher` (SipHash with fixed keys,
/// the same for every hasher made by `DefaultHasher::new`/`default`): the
/// hash of the string, named by `source_hash`. Its value is only stable
/// within one build of std.
#[verifier::external_body]
fn hash_source(source: &str) -> (r: u64)
    ensures
        r == source_hash(source@),
{
    std::hash::BuildHasher::hash_one(
        &std::hash::BuildHasherDefault::<std::collections::hash_map::DefaultHasher>::default(),
        source,
    )
}

/// A cached transform: the hash of the source it was made from and the
/// transformed output.
pub struct CachedTransform {
    pub source_hash: u64,
    pub output: String,
}

/// Transformed modules by path, shared by the server module loader and the
/// client dev middleware so that no file is transformed twice. Paths are
/// compared as `PathBuf`s are, component by component (`path_key_spec`).
pub struct TransformCache {
    entries: StringHashMap<CachedTransform>,
}

/// A cache as values: path key to (source hash, output).
pub type CacheView = Map<Seq<char>, (u64, Seq<char>)>;

/// The file name a path is transformed under: its last component, or
/// `input.tsx` when it has none.
pub open spec fn transform_file_name(path: Seq<char>) -> Seq<char> {
    match paths::file_name_spec(path) {
        Some(n) => n,
        None => "input.tsx"@,
    }
}

/// The output cached for `path` when it was made from a source with the
/// same hash as `source`.
pub open spec fn cache_hit(m: CacheView, path: Seq<char>, source: Seq<char>) -> Option<Seq<char>> {
    if m.contains_key(path) && m[path].0 == source_hash(source) {
        Some(m[path].1)
    } else {
        None
    }
}

/// The output cached for `path`, whatever its source.
pub open spec fn cached_output(m: CacheView, path: Seq<char>) -> Option<Seq<char>> {
    if m.contains_key(path) {
        Some(m[path].1)
    } else {
        None
    }
}

/// The cache after storing `output` as the transform of `source` at `path`.
pub open spec fn store(m: CacheView, path: Seq<char>, source: Seq<char>, output: Seq<char>) -> CacheView {
    m.insert(path, (source_hash(source), output))
}

/// The error of a failed transform: the path, then the compiler's error.
pub open spec fn failed_transform_message(path: Seq<char>, cause: Seq<char>) -> Seq<char> {
    "Failed to transform "@ + path + ": "@ + cause
}

impl TransformCache {
    /// The cache as values.
    pub closed spec fn view_map(&self) -> CacheView {
        Map::new(
            |p: Seq<char>| self.entries@.contains_key(p),
            |p: Seq<char>| (self.entries@[p].source_hash, self.entries@[p].output@),
        )
    }

    /// An empty cache.
    pub fn new() -> (r: TransformCache)
        ensures
            r.view_map() == Map::<Seq<char>, (u64, Seq<char>)>::empty(),
    {
        let r = TransformCache { entries: StringHashMap::new() };
        proof {
            assert(r.view_map() =~= Map::<Seq<char>, (u64, Seq<char>)>::empty());
        }
        r
    }

    /// Transforms a file to ESM: `compile` (given the source and the file
    /// name) parses, transforms and prints it, and the CSS imports of what
    /// it prints are stripped (see `strip_css_imports`); unless the output
    /// cached for the path was made from a source with the same hash: then
    /// that output is returned and `compile` is not called. A successful
    /// transform is cached; a failed one leaves the cache as it was.
    pub fn transform<F: Fn(&str, &str) -> Result<String, String>>(
        &mut self,
        path: &str,
        source: &str,
        compile: F,
    ) -> (r: Result<String, String>)
        requires
            forall|s: &str, n: &str| compile.requires((s, n)),
        ensures
            cache_hit(old(self).view_map(), paths::path_key_spec(path@), source@) matches Some(o) ==> r matches Ok(
                out,
            ) && out@ == o && final(self).view_map() == old(self).view_map(),
            cache_hit(old(self).view_map(), paths::path_key_spec(path@), source@) is None ==> exists|
                n: &str,
                res: Result<String, String>,
            |
                n@ == transform_file_name(path@) && #[trigger] compile.ensures((source, n), res) && match res {
                    Ok(out) => r matches Ok(o) && o@ == esm_output(out@) && final(self).view_map() == store(
                        old(self).view_map(),
                        paths::path_key_spec(path@),
                        source@,
                        esm_output(out@),
                    ),
                    Err(c) => r matches Err(e) && e@ == failed_transform_message(path@, c@) && final(self).view_map()
                        == old(self).view_map(),
                },
    {
        let hash = hash_source(source);
        let key = paths::path_key(path);
        let filename = match paths::file_name(path) {
            Some(n) => n,
            None => String::from_str("input.tsx"),
        };
        match self.entries.get(key.as_str()) {
            Some(cached) => {
                if cached.source_hash == hash {
                    proof {
                        assert(self.view_map().contains_key(key@));
                    }
                    return Ok(String::from_str(cached.output.as_str()));
                }
            },
            None => {},
        }
        proof {
            assert(cache_hit(old(self).view_map(), key@, source@) is None);
        }
        let fname = filename.as_str();
        let result = compile(source, fname);
        let ghost res = result;
        match result {
            Ok(code) => {
                let output = strip_css_imports(code.as_str());
                let copy = String::from_str(output.as_str());
                self.entries.insert(key, CachedTransform { source_hash: hash, output: copy });
                proof {
                    assert(self.view_map() =~= store(old(self).view_map(), paths::path_key_spec(path@), source@, output@));
                }
                Ok(output)
            },
            Err(c) => {
                let mut e = String::from_str("Failed to transform ");
                e.append(path);
                e.append(": ");
                e.append(c.as_str());
                Err(e)
            },
        }
    }

    /// Forgets the transform cached for a path (after the file changed).
    pub fn invalidate(&mut self, path: &str)
        ensures
            final(self).view_map() == old(self).view_map().remove(paths::path_key_spec(path@)),
    {
        let key = paths::path_key(path);
        self.entries.remove(key.as_str());
        proof {
            assert(self.view_map() =~= old(self).view_map().remove(paths::path_key_spec(path@)));
        }
    }

    /// The output cached for a path, whatever source it was made from.
    pub fn get_cached(&self, path: &str) -> (r: Option<String>)
        ensures
            text::opt_view(r) == cached_output(self.view_map(), paths::path_key_spec(path@)),
    {
        let key = paths::path_key(path);
        match self.entries.get(key.as_str()) {
            Some(c) => Some(String::from_str(c.output.as_str())),
            None => None,
        }
    }
}

impl Default for TransformCache {
    fn default() -> (r: TransformCache)
        ensures
            r.view_map() == Map::<Seq<char>, (u64, Seq<char>)>::empty(),
    {
        TransformCache::new()
    }
}

/// Once a transform is stored, transforming the same path with the same
/// source hits the cache and gives the stored output, and that output is
/// what is cached for the path.
pub proof fn lemma_store_then_hit(m: CacheView, path: Seq<char>, source: Seq<char>, output: Seq<char>)
    ensures
        cache_hit(store(m, path, source, output), path, source) == Some(output),
        cached_output(store(m, path, source, output), path) == Some(output),
{
}

/// Storing or forgetting one path leaves every other path as it was.
pub proof fn lemma_other_paths_unchanged(
    m: CacheView,
    path: Seq<char>,
    source: Seq<char>,
    output: Seq<char>,
    other: Seq<char>,
    other_source: Seq<char>,
)
    requires
        other != path,
    ensures
        cache_hit(store(m, path, source, output), other, other_source) == cache_hit(m, other, other_source),
        cached_output(m.remove(path), other) == cached_output(m, other),
{
}

/// After a path is forgotten nothing is cached for it, and the next
/// transform of it misses whatever its source.
pub proof fn lemma_invalidate_then_miss(m: CacheView, path: Seq<char>, source: Seq<char>)
    ensures
        cached_output(m.remove(path), path) is None,
        cache_hit(m.remove(path), path, source) is None,
{
}

/// A change to the cache as values: `(true, key, source, output)` stores
/// the transform of `source` made for the path key (a successful transform
/// that missed); `(false, key, _, _)` forgets the key (an invalidation).
/// Hits and failed transforms change nothing.
pub type CacheEvent = (bool, Seq<char>, Seq<char>, Seq<char>);

/// The cache after the events, in order.
pub open spec fn apply_events(m: CacheView, evs: Seq<CacheEvent>) -> CacheView
    decreases evs.len(),
{
    if evs.len() == 0 {
        m
    } else {
        let prev = apply_events(m, evs.drop_last());
        let e = evs.last();
        if e.0 {
            store(prev, e.1, e.2, e.3)
        } else {
            prev.remove(e.1)
        }
    }
}

/// The output of the last store for `key` after its last invalidation, if
/// there is one.
pub open spec fn last_stored(evs: Seq<CacheEvent>, key: Seq<char>) -> Option<Seq<char>>
    decreases evs.len(),
{
    if evs.len() == 0 {
        None
    } else if evs.last().1 == key {
        if evs.last().0 {
            Some(evs.last().3)
        } else {
            None
        }
    } else {
        last_stored(evs.drop_last(), key)
    }
}

/// A read gives back the last successful transform since the last
/// invalidation: starting from an empty cache, after any sequence of
/// stores and invalidations, the output cached for a path key is that of
/// the last store for it after it was last forgotten, and nothing when
/// there is none.
pub proof fn lemma_read_gives_last_store(evs: Seq<CacheEvent>, key: Seq<char>)
    ensures
        cached_output(apply_events(Map::empty(), evs), key) == last_stored(evs, key),
    decreases evs.len(),
{
    if evs.len() > 0 {
        lemma_read_gives_last_store(evs.drop_last(), key);
    }
}

} // verus!
