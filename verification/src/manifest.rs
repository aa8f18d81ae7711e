//! The asset manifest of a build: client assets per route, global CSS,
//! shared chunks and the RSC bundles.
use vstd::prelude::*;
use crate::paths;

verus! {

/// How a page gets its data, detected at build time from its exports.
#[derive(Clone, Copy, PartialEq, Eq, Structural, Debug)]
pub enum DataStrategy {
    /// Neither data function is exported.
    NoData,
    /// `getServerSideProps` is exported.
    GetServerSideProps,
    /// `getStaticProps` is exported.
    GetStaticProps,
}

/// Assets of a pages-router route.
pub struct PageAssets {
    /// The client chunk of the page.
    pub js: String,
    /// The page's own CSS files.
    pub css: Vec<String>,
    /// The data strategy detected from the page's exports.
    pub data_strategy: DataStrategy,
}

/// Assets of an app/ route (RSC).
pub struct AppRouteAssets {
    /// Client chunks needed for this route's `"use client"` components.
    pub client_chunks: Vec<String>,
    /// Layout chain patterns (for nested rendering).
    pub layout_chain: Vec<String>,
}

/// Maps route patterns to their client-side assets. The keyed lists hold
/// each key once.
pub struct AssetManifest {
    pub build_id: String,
    /// Route pattern to page assets (pages router).
    pub pages: Vec<(String, PageAssets)>,
    /// The client `_app` chunk, loaded before the page scripts.
    pub app_script: Option<String>,
    /// Global CSS files (from `_app` imports), on every page.
    pub global_css: Vec<String>,
    /// CSS file contents for inlining, by file name.
    pub css_contents: Vec<(String, String)>,
    /// Shared chunks split out by code splitting, preloaded on every page.
    pub shared_chunks: Vec<String>,
    /// Self-hosted font files to preload.
    pub font_preloads: Vec<String>,
    /// Middleware matcher patterns: `None` without middleware, an empty
    /// list to run on every path.
    pub middleware_matchers: Option<Vec<String>>,
    /// App route pattern to its assets (app router).
    pub app_routes: Vec<(String, AppRouteAssets)>,
    /// Path to the RSC server bundle.
    pub rsc_server_bundle: Option<String>,
    /// Path to the RSC SSR bundle.
    pub rsc_ssr_bundle: Option<String>,
    /// Server action ids to their export names.
    pub server_actions: Vec<(String, String)>,
}

/// A keyed list with its keys as character sequences.
pub open spec fn keyed<V>(v: Seq<(String, V)>) -> Seq<(Seq<char>, V)> {
    v.map_values(|e: (String, V)| (e.0@, e.1))
}

/// The index of the entry with key `k`, or -1 where there is none.
pub open spec fn key_index<V>(v: Seq<(Seq<char>, V)>, k: Seq<char>) -> int
    decreases v.len(),
{
    if v.len() == 0 {
        -1
    } else if v[0].0 == k {
        0
    } else {
        let i = key_index(v.drop_first(), k);
        if i < 0 {
            -1
        } else {
            i + 1
        }
    }
}

/// Where `upsert` puts the value of `k`: its entry, or a new last one.
pub open spec fn upsert_pos<V>(v: Seq<(Seq<char>, V)>, k: Seq<char>) -> int {
    if key_index(v, k) >= 0 {
        key_index(v, k)
    } else {
        v.len() as int
    }
}

/// A keyed insert: the value of `k` replaced in place where `k` is
/// present, a new entry appended otherwise.
pub open spec fn upsert<V>(v: Seq<(Seq<char>, V)>, k: Seq<char>, val: V) -> Seq<(Seq<char>, V)> {
    if key_index(v, k) >= 0 {
        v.update(key_index(v, k), (k, val))
    } else {
        v.push((k, val))
    }
}

/// Each key occurs once.
pub open spec fn keys_unique<V>(v: Seq<(Seq<char>, V)>) -> bool {
    forall|i: int, j: int| 0 <= i < j < v.len() ==> v[i].0 != v[j].0
}

/// `key_index` finds the first entry of the key.
pub proof fn lemma_key_index<V>(v: Seq<(Seq<char>, V)>, k: Seq<char>)
    ensures
        key_index(v, k) < v.len(),
        key_index(v, k) >= 0 ==> v[key_index(v, k)].0 == k && forall|j: int|
            0 <= j < key_index(v, k) ==> (#[trigger] v[j]).0 != k,
        key_index(v, k) < 0 ==> key_index(v, k) == -1 && forall|j: int| 0 <= j < v.len() ==> (#[trigger] v[j]).0 != k,
    decreases v.len(),
{
    if v.len() > 0 && v[0].0 != k {
        lemma_key_index(v.drop_first(), k);
        assert forall|j: int| 0 < j < v.len() implies (#[trigger] v[j]).0 == v.drop_first()[j - 1].0 by {}
    }
}

/// A keyed insert keeps the keys unique, makes the key map to the value,
/// and leaves the entry of every other key where and as it was.
pub proof fn lemma_upsert<V>(v: Seq<(Seq<char>, V)>, k: Seq<char>, val: V, k2: Seq<char>)
    requires
        keys_unique(v),
    ensures
        keys_unique(upsert(v, k, val)),
        key_index(upsert(v, k, val), k) == upsert_pos(v, k),
        upsert(v, k, val)[upsert_pos(v, k)] == (k, val),
        k2 != k ==> key_index(upsert(v, k, val), k2) == key_index(v, k2),
        k2 != k && key_index(v, k2) >= 0 ==> upsert(v, k, val)[key_index(v, k2)] == v[key_index(v, k2)],
{
    lemma_key_index(v, k);
    lemma_key_index(v, k2);
    let u = upsert(v, k, val);
    lemma_key_index(u, k);
    lemma_key_index(u, k2);
    if key_index(v, k) >= 0 {
        assert forall|i: int, j: int| 0 <= i < j < u.len() implies u[i].0 != u[j].0 by {
            assert(u[i].0 == v[i].0 && u[j].0 == v[j].0);
        }
    } else {
        assert forall|i: int, j: int| 0 <= i < j < u.len() implies u[i].0 != u[j].0 by {
            if j < v.len() {
                assert(u[i].0 == v[i].0 && u[j].0 == v[j].0);
            } else {
                assert(u[i].0 == v[i].0);
            }
        }
    }
    assert(keys_unique(u));
    if key_index(u, k) != upsert_pos(v, k) {
        assert(u[upsert_pos(v, k)].0 == k);
    }
    if k2 != k {
        if key_index(v, k2) >= 0 {
            assert(u[key_index(v, k2)].0 == k2);
            if key_index(u, k2) != key_index(v, k2) {
                assert(u[key_index(u, k2)].0 == k2);
            }
        } else {
            if key_index(u, k2) >= 0 {
                let i = key_index(u, k2);
                if i < v.len() {
                    assert(u[i].0 == v[i].0);
                }
            }
        }
    }
}

/// The index of the entry with key `k`.
fn key_position<V>(v: &Vec<(String, V)>, k: &str) -> (r: Option<usize>)
    ensures
        match r {
            Some(i) => i as int == key_index(keyed(v@), k@),
            None => key_index(keyed(v@), k@) < 0,
        },
{
    let ghost kv = keyed(v@);
    proof {
        lemma_key_index(kv, k@);
    }
    let mut i: usize = 0;
    while i < v.len()
        invariant
            i <= v@.len(),
            kv == keyed(v@),
            forall|j: int| 0 <= j < i ==> (#[trigger] kv[j]).0 != k@,
            key_index(kv, k@) >= 0 ==> key_index(kv, k@) >= i,
        decreases v.len() - i,
    {
        proof {
            lemma_key_index(kv, k@);
            assert(kv[i as int].0 == v@[i as int].0@);
        }
        if crate::text::str_eq(v[i].0.as_str(), k) {
            proof {
                if key_index(kv, k@) != i {
                    assert(kv[i as int].0 == k@);
                }
            }
            return Some(i);
        }
        i += 1;
    }
    proof {
        lemma_key_index(kv, k@);
    }
    None
}

/// The page entry `add_page_with_css` records: its chunk, its CSS files and
/// its data strategy.
pub open spec fn page_entry_is(p: PageAssets, js: Seq<char>, css: Seq<Seq<char>>, data_strategy: DataStrategy) -> bool {
    &&& p.js@ == js
    &&& crate::text::views(p.css@) == css
    &&& p.data_strategy == data_strategy
}

impl AssetManifest {
    /// The keyed lists hold each key once.
    pub open spec fn wf(&self) -> bool {
        &&& keys_unique(keyed(self.pages@))
        &&& keys_unique(keyed(self.css_contents@))
        &&& keys_unique(keyed(self.app_routes@))
        &&& keys_unique(keyed(self.server_actions@))
    }

    /// An empty manifest for a build.
    pub fn new(build_id: String) -> (r: AssetManifest)
        ensures
            r.wf(),
            r.build_id == build_id,
            r.pages@.len() == 0,
            r.app_script is None,
            r.global_css@.len() == 0,
            r.css_contents@.len() == 0,
            r.shared_chunks@.len() == 0,
            r.font_preloads@.len() == 0,
            r.middleware_matchers is None,
            r.app_routes@.len() == 0,
            r.rsc_server_bundle is None,
            r.rsc_ssr_bundle is None,
            r.server_actions@.len() == 0,
    {
        AssetManifest {
            build_id,
            pages: Vec::new(),
            app_script: None,
            global_css: Vec::new(),
            css_contents: Vec::new(),
            shared_chunks: Vec::new(),
            font_preloads: Vec::new(),
            middleware_matchers: None,
            app_routes: Vec::new(),
            rsc_server_bundle: None,
            rsc_ssr_bundle: None,
            server_actions: Vec::new(),
        }
    }

    fn put_page(&mut self, route_pattern: &str, page: PageAssets)
        requires
            old(self).wf(),
        ensures
            final(self).wf(),
            keyed(final(self).pages@) == upsert(keyed(old(self).pages@), route_pattern@, page),
            final(self).build_id == old(self).build_id,
            final(self).global_css == old(self).global_css,
            final(self).css_contents == old(self).css_contents,
            final(self).app_routes == old(self).app_routes,
            final(self).server_actions == old(self).server_actions,
    {
        let ghost kv = keyed(self.pages@);
        let ghost pg = page;
        proof {
            lemma_key_index(kv, route_pattern@);
            lemma_upsert(kv, route_pattern@, pg, route_pattern@);
        }
        match key_position(&self.pages, route_pattern) {
            Some(i) => {
                self.pages.set(i, (String::from_str(route_pattern), page));
                proof {
                    assert(keyed(self.pages@) =~= kv.update(i as int, (route_pattern@, pg)));
                }
            },
            None => {
                self.pages.push((String::from_str(route_pattern), page));
                proof {
                    assert(keyed(self.pages@) =~= kv.push((route_pattern@, pg)));
                }
            },
        }
    }

    /// The assets recorded for a route pattern.
    pub fn page(&self, route_pattern: &str) -> (r: Option<&PageAssets>)
        ensures
            match r {
                Some(p) => key_index(keyed(self.pages@), route_pattern@) >= 0 && *p == self.pages@[key_index(
                    keyed(self.pages@),
                    route_pattern@,
                )].1,
                None => key_index(keyed(self.pages@), route_pattern@) < 0,
            },
    {
        proof {
            lemma_key_index(keyed(self.pages@), route_pattern@);
        }
        match key_position(&self.pages, route_pattern) {
            Some(i) => Some(&self.pages[i].1),
            None => None,
        }
    }

    /// Records a page without CSS; an earlier entry of the pattern is
    /// replaced in place.
    pub fn add_page(&mut self, route_pattern: &str, js_filename: &str, data_strategy: DataStrategy)
        requires
            old(self).wf(),
        ensures
            final(self).wf(),
            keyed(final(self).pages@) == upsert(
                keyed(old(self).pages@),
                route_pattern@,
                final(self).pages@[upsert_pos(keyed(old(self).pages@), route_pattern@)].1,
            ),
            page_entry_is(
                final(self).pages@[upsert_pos(keyed(old(self).pages@), route_pattern@)].1,
                js_filename@,
                Seq::empty(),
                data_strategy,
            ),
            final(self).build_id == old(self).build_id,
            final(self).global_css == old(self).global_css,
            final(self).css_contents == old(self).css_contents,
    {
        let page = PageAssets { js: String::from_str(js_filename), css: Vec::new(), data_strategy };
        proof {
            assert(crate::text::views(page.css@) =~= Seq::<Seq<char>>::empty());
        }
        let ghost pg = page;
        let ghost kv = keyed(self.pages@);
        self.put_page(route_pattern, page);
        proof {
            lemma_upsert(kv, route_pattern@, pg, route_pattern@);
            lemma_key_index(kv, route_pattern@);
            assert(keyed(self.pages@)[upsert_pos(kv, route_pattern@)] == (route_pattern@, pg));
            assert(self.pages@[upsert_pos(kv, route_pattern@)].1 == pg);
        }
    }

    /// Records a page with its CSS files; an earlier entry of the pattern
    /// is replaced in place.
    pub fn add_page_with_css(
        &mut self,
        route_pattern: &str,
        js_filename: &str,
        css_filenames: &[String],
        data_strategy: DataStrategy,
    )
        requires
            old(self).wf(),
        ensures
            final(self).wf(),
            keyed(final(self).pages@) == upsert(
                keyed(old(self).pages@),
                route_pattern@,
                final(self).pages@[upsert_pos(keyed(old(self).pages@), route_pattern@)].1,
            ),
            page_entry_is(
                final(self).pages@[upsert_pos(keyed(old(self).pages@), route_pattern@)].1,
                js_filename@,
                crate::text::views(css_filenames@),
                data_strategy,
            ),
            final(self).build_id == old(self).build_id,
            final(self).global_css == old(self).global_css,
            final(self).css_contents == old(self).css_contents,
    {
        let mut css: Vec<String> = Vec::new();
        let mut i: usize = 0;
        while i < css_filenames.len()
            invariant
                i <= css_filenames@.len(),
                css@.len() == i,
                crate::text::views(css@) == crate::text::views(css_filenames@).take(i as int),
            decreases css_filenames.len() - i,
        {
            let ghost c0 = css@;
            css.push(String::from_str(css_filenames[i].as_str()));
            proof {
                assert(crate::text::views(css@) =~= crate::text::views(c0).push(css_filenames@[i as int]@));
                assert(crate::text::views(css_filenames@).take(i + 1) =~= crate::text::views(css_filenames@).take(
                    i as int,
                ).push(css_filenames@[i as int]@));
            }
            i += 1;
        }
        proof {
            assert(crate::text::views(css_filenames@).take(i as int) =~= crate::text::views(css_filenames@));
        }
        let page = PageAssets { js: String::from_str(js_filename), css, data_strategy };
        let ghost pg = page;
        let ghost kv = keyed(self.pages@);
        self.put_page(route_pattern, page);
        proof {
            lemma_upsert(kv, route_pattern@, pg, route_pattern@);
            lemma_key_index(kv, route_pattern@);
            assert(keyed(self.pages@)[upsert_pos(kv, route_pattern@)] == (route_pattern@, pg));
            assert(self.pages@[upsert_pos(kv, route_pattern@)].1 == pg);
        }
    }
}

/// The output name of a collected stylesheet: `{stem}-{hash}.css`, with
/// an empty stem where the path has none.
pub open spec fn css_output_name_spec(css_path: Seq<char>, hash: Seq<char>) -> Seq<char> {
    let stem = match paths::file_stem_spec(css_path) {
        Some(s) => s,
        None => Seq::empty(),
    };
    stem + "-"@ + hash + ".css"@
}

/// The output name of a collected stylesheet.
pub fn css_output_name(css_path: &str, hash: &str) -> (r: String)
    ensures
        r@ == css_output_name_spec(css_path@, hash@),
{
    let mut r = match paths::file_stem(css_path) {
        Some(s) => s,
        None => String::new(),
    };
    r.append("-");
    r.append(hash);
    r.append(".css");
    r
}

} // verus!
