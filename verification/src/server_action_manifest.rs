//! The server action manifest: action ids mapped to the module and export
//! that implement them.
use vstd::prelude::*;
use vstd::hash_map::StringHashMap;

pub use crate::ids::server_action_id;

verus! {

/// Where a server action lives: its module (relative path) and export name.
pub struct ServerActionEntry {
    /// Relative path to the module containing this action.
    pub module_rel_path: String,
    /// The export name (e.g. `incrementCounter`, `default`).
    pub export_name: String,
}

/// Maps server action ids to their module location.
pub struct ServerActionManifest {
    pub actions: StringHashMap<ServerActionEntry>,
    /// The ids in the order they were first added.
    ids: Vec<String>,
}

impl View for ServerActionManifest {
    type V = Map<Seq<char>, ServerActionEntry>;

    /// The entries by action id.
    closed spec fn view(&self) -> Map<Seq<char>, ServerActionEntry> {
        self.actions@
    }
}

/// The actions as `(id, module, export)` rows, in the order of `order`.
pub open spec fn ordered_rows(order: Seq<Seq<char>>, m: Map<Seq<char>, ServerActionEntry>) -> Seq<
    (Seq<char>, Seq<char>, Seq<char>),
> {
    order.map_values(|k: Seq<char>| (k, m[k].module_rel_path@, m[k].export_name@))
}

/// The character views of `(id, module, export)` rows.
pub open spec fn row_views(rows: Seq<(String, String, String)>) -> Seq<(Seq<char>, Seq<char>, Seq<char>)> {
    rows.map_values(|t: (String, String, String)| (t.0@, t.1@, t.2@))
}

impl ServerActionManifest {
    /// Every id is listed once, and the listed ids are exactly the keys.
    pub closed spec fn wf(&self) -> bool {
        &&& forall|i: int, j: int| 0 <= i < j < self.ids@.len() ==> self.ids@[i]@ != self.ids@[j]@
        &&& forall|k: Seq<char>| self.actions@.contains_key(k) <==> exists|i: int| 0 <= i < self.ids@.len() && self.ids@[i]@ == k
    }

    /// The ids in the order they were first added.
    pub closed spec fn order(&self) -> Seq<Seq<char>> {
        crate::text::views(self.ids@)
    }

    /// An empty manifest.
    pub fn new() -> (r: ServerActionManifest)
        ensures
            r.wf(),
            r@ == Map::<Seq<char>, ServerActionEntry>::empty(),
    {
        ServerActionManifest { actions: StringHashMap::new(), ids: Vec::new() }
    }

    /// Records that `action_id` dispatches to `export_name` of `module_rel_path`;
    /// an earlier entry under the same id is replaced.
    pub fn add(&mut self, action_id: &str, module_rel_path: String, export_name: String)
        requires
            old(self).wf(),
        ensures
            final(self).wf(),
            final(self)@ == old(self)@.insert(
                action_id@,
                ServerActionEntry { module_rel_path, export_name },
            ),
    {
        let key = String::from_str(action_id);
        if !self.actions.contains_key(action_id) {
            let ghost old_ids = self.ids@;
            self.ids.push(String::from_str(action_id));
            proof {
                assert(self.ids@[old_ids.len() as int]@ == action_id@);
                assert forall|i: int, j: int| 0 <= i < j < self.ids@.len() implies self.ids@[i]@ != self.ids@[j]@ by {
                    if j == old_ids.len() {
                        assert(old_ids[i] == self.ids@[i]);
                    }
                }
            }
        }
        let ghost before = self.ids@;
        self.actions.insert(key, ServerActionEntry { module_rel_path, export_name });
        proof {
            assert forall|k: Seq<char>| self.actions@.contains_key(k) <==> exists|i: int| 0 <= i < self.ids@.len() && self.ids@[i]@ == k by {
                if k == action_id@ {
                    if !old(self).actions@.contains_key(action_id@) {
                        assert(self.ids@[self.ids@.len() - 1]@ == k);
                    } else {
                        let i = choose|i: int| 0 <= i < old(self).ids@.len() && old(self).ids@[i]@ == k;
                        assert(self.ids@[i]@ == k);
                    }
                } else if old(self).actions@.contains_key(k) {
                    let i = choose|i: int| 0 <= i < old(self).ids@.len() && old(self).ids@[i]@ == k;
                    assert(self.ids@[i]@ == k);
                } else if exists|i: int| 0 <= i < self.ids@.len() && self.ids@[i]@ == k {
                    let i = choose|i: int| 0 <= i < self.ids@.len() && self.ids@[i]@ == k;
                    if i < old(self).ids@.len() {
                        assert(old(self).ids@[i]@ == k);
                    }
                }
            }
        }
    }

    /// A well-formed manifest holds finitely many actions, as many as ids
    /// listed in order.
    pub proof fn lemma_wf_finite(&self)
        requires
            self.wf(),
        ensures
            self@.dom().finite(),
            self@.dom() == self.order().to_set(),
            self@.dom().len() == self.order().len(),
    {
        let o = self.order();
        assert forall|k: Seq<char>| self@.dom().contains(k) <==> o.to_set().contains(k) by {
            if self@.dom().contains(k) {
                let i = choose|i: int| 0 <= i < self.ids@.len() && self.ids@[i]@ == k;
                assert(o[i] == k);
            }
            if o.to_set().contains(k) {
                let i = choose|i: int| 0 <= i < o.len() && o[i] == k;
                assert(self.ids@[i]@ == k);
            }
        }
        assert(self@.dom() =~= o.to_set());
        vstd::seq_lib::seq_to_set_is_finite(o);
        assert(o.no_duplicates());
        o.unique_seq_to_set();
    }

    /// Adding an action grows the manifest by one exactly when its id is
    /// new, and leaves the size as it is when the id is replaced.
    pub proof fn lemma_add_size(&self, id: Seq<char>, entry: ServerActionEntry)
        requires
            self.wf(),
        ensures
            self@.insert(id, entry).dom().len() == if self@.dom().contains(id) {
                self@.dom().len()
            } else {
                self@.dom().len() + 1
            },
    {
        self.lemma_wf_finite();
    }

    /// The actions as `(id, module, export)` rows, in the order their ids
    /// were first added.
    pub fn ordered_entries(&self) -> (r: Vec<(String, String, String)>)
        requires
            self.wf(),
        ensures
            r@.len() == self@.len(),
            row_views(r@) == ordered_rows(self.order(), self@),
    {
        let ids = self.action_ids();
        let ghost rows = ordered_rows(self.order(), self@);
        let mut r: Vec<(String, String, String)> = Vec::new();
        let mut i: usize = 0;
        while i < ids.len()
            invariant
                i <= ids@.len(),
                crate::text::views(ids@) == self.order(),
                rows == ordered_rows(self.order(), self@),
                forall|k: Seq<char>| self@.contains_key(k) <==> exists|j: int| 0 <= j < ids@.len() && ids@[j]@ == k,
                r@.len() == i,
                row_views(r@) == rows.take(i as int),
            decreases ids.len() - i,
        {
            proof {
                assert(crate::text::views(ids@)[i as int] == ids@[i as int]@);
                assert(self@.contains_key(ids@[i as int]@));
            }
            match self.actions.get(ids[i].as_str()) {
                Some(e) => {
                    let ghost r0 = r@;
                    r.push((ids[i].clone(), e.module_rel_path.clone(), e.export_name.clone()));
                    proof {
                        assert(row_views(r@) =~= rows.take(i + 1)) by {
                            assert forall|k: int| 0 <= k < i + 1 implies #[trigger] row_views(r@)[k] == rows.take(i + 1)[k] by {
                                if k < i {
                                    assert(r@[k] == r0[k]);
                                    assert(row_views(r0)[k] == rows.take(i as int)[k]);
                                }
                            }
                        }
                    }
                },
                None => {
                    proof {
                        assert(false);
                    }
                },
            }
            i += 1;
        }
        proof {
            assert(rows.take(i as int) =~= rows);
        }
        r
    }

    /// The ids of the manifest, each once, in the order they were first added.
    pub fn action_ids(&self) -> (r: Vec<String>)
        requires
            self.wf(),
        ensures
            crate::text::views(r@) == self.order(),
            r@.len() == self@.len(),
            forall|i: int, j: int| 0 <= i < j < r@.len() ==> r@[i]@ != r@[j]@,
            forall|k: Seq<char>| self@.contains_key(k) <==> exists|i: int| 0 <= i < r@.len() && r@[i]@ == k,
    {
        let mut r: Vec<String> = Vec::new();
        let mut i: usize = 0;
        while i < self.ids.len()
            invariant
                i <= self.ids@.len(),
                r@.len() == i,
                forall|j: int| 0 <= j < i ==> r@[j]@ == self.ids@[j]@,
            decreases self.ids.len() - i,
        {
            r.push(String::from_str(self.ids[i].as_str()));
            i += 1;
        }
        proof {
            assert forall|k: Seq<char>| self@.contains_key(k) <==> exists|i: int| 0 <= i < r@.len() && r@[i]@ == k by {
                if self@.contains_key(k) {
                    let i = choose|i: int| 0 <= i < self.ids@.len() && self.ids@[i]@ == k;
                    assert(r@[i]@ == k);
                }
                if exists|i: int| 0 <= i < r@.len() && r@[i]@ == k {
                    let i = choose|i: int| 0 <= i < r@.len() && r@[i]@ == k;
                    assert(self.ids@[i]@ == k);
                }
            }
            let m = self.ids@.map_values(|s: String| s@);
            assert forall|a: int, b: int| 0 <= a < b < m.len() implies m[a] != m[b] by {}
            m.unique_seq_to_set();
            assert(crate::text::views(r@) =~= m);
            assert(m.to_set() =~= self.actions@.dom()) by {
                assert forall|k: Seq<char>| m.to_set().contains(k) <==> self.actions@.dom().contains(k) by {
                    if m.to_set().contains(k) {
                        let i = choose|i: int| 0 <= i < m.len() && m[i] == k;
                        assert(self.ids@[i]@ == k);
                    }
                    if self.actions@.dom().contains(k) {
                        let i = choose|i: int| 0 <= i < self.ids@.len() && self.ids@[i]@ == k;
                        assert(m[i] == k);
                    }
                }
            }
        }
        r
    }
}

/// After adding an action, looking its id up gives the entry just added,
/// and every other id keeps what it had.
pub proof fn lemma_manifest_add_lookup(
    before: Map<Seq<char>, ServerActionEntry>,
    action_id: Seq<char>,
    entry: ServerActionEntry,
    other: Seq<char>,
)
    ensures
        before.insert(action_id, entry).contains_key(action_id),
        before.insert(action_id, entry)[action_id] == entry,
        other != action_id ==> before.insert(action_id, entry).contains_key(other) == before.contains_key(other),
        other != action_id && before.contains_key(other) ==> before.insert(action_id, entry)[other] == before[other],
{
}

} // verus!
