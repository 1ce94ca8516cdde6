use vstd::prelude::*;

use crate::template::Template;
use vstd::pervasive::VecAdditionalExecFns;
use crate::text::{compare_str, lemma_seq_lt_irreflexive, lemma_seq_lt_total, seq_lt};

verus! {

/// What can go wrong when the store file is read or written.
#[derive(Debug)]
pub enum StoreError {
    Io(String),
    Decode(String),
}

/// Keys ascending in strict `seq_lt` order (hence pairwise distinct).
pub open spec fn sorted_by_key(s: Seq<Template>) -> bool {
    forall|i: int, j: int| 0 <= i < j < s.len() ==> seq_lt(#[trigger] s[i].key(), #[trigger] s[j].key())
}

/// No two templates share a key.
pub open spec fn unique_keys(s: Seq<Template>) -> bool {
    forall|i: int, j: int|
        0 <= i < s.len() && 0 <= j < s.len() && i != j ==> #[trigger] s[i].key() != #[trigger] s[j].key()
}

/// The keyed collection obtained by upserting the templates of `s` in order
/// (a later template replaces an earlier one of the same name).
pub open spec fn templates_map(s: Seq<Template>) -> Map<Seq<char>, Template>
    decreases s.len(),
{
    if s.len() == 0 {
        Map::empty()
    } else {
        templates_map(s.drop_last()).insert(s.last().key(), s.last())
    }
}

pub proof fn lemma_sorted_unique(s: Seq<Template>)
    requires
        sorted_by_key(s),
    ensures
        unique_keys(s),
{
    assert forall|i: int, j: int|
        0 <= i < s.len() && 0 <= j < s.len() && i != j implies #[trigger] s[i].key() != #[trigger] s[j].key() by {
        if i < j {
            lemma_seq_lt_irreflexive(s[i].key());
        } else {
            lemma_seq_lt_irreflexive(s[j].key());
        }
    }
}

/// With distinct keys, the map holds exactly the keys of `s`, each bound to its template.
pub proof fn lemma_templates_map(s: Seq<Template>)
    requires
        unique_keys(s),
    ensures
        forall|k: Seq<char>|
            #[trigger] templates_map(s).contains_key(k) <==> exists|i: int| 0 <= i < s.len() && s[i].key() == k,
        forall|i: int| 0 <= i < s.len() ==> #[trigger] templates_map(s)[s[i].key()] == s[i],
    decreases s.len(),
{
    if s.len() > 0 {
        let t = s.drop_last();
        assert(unique_keys(t)) by {
            assert forall|i: int, j: int|
                0 <= i < t.len() && 0 <= j < t.len() && i != j implies #[trigger] t[i].key() != #[trigger] t[j].key() by {
                assert(t[i] == s[i] && t[j] == s[j]);
            }
        }
        lemma_templates_map(t);
        assert(templates_map(s) == templates_map(t).insert(s.last().key(), s.last()));
        assert forall|k: Seq<char>|
            #[trigger] templates_map(s).contains_key(k) <==> exists|i: int| 0 <= i < s.len() && s[i].key() == k by {
            if templates_map(s).contains_key(k) {
                if k == s.last().key() {
                    assert(s[s.len() - 1].key() == k);
                } else {
                    assert(templates_map(t).contains_key(k));
                    let i = choose|i: int| 0 <= i < t.len() && t[i].key() == k;
                    assert(s[i].key() == k);
                }
            }
            if exists|i: int| 0 <= i < s.len() && s[i].key() == k {
                let i = choose|i: int| 0 <= i < s.len() && s[i].key() == k;
                if i < s.len() - 1 {
                    assert(t[i].key() == k);
                    assert(templates_map(t).contains_key(k));
                }
            }
        }
        assert forall|i: int| 0 <= i < s.len() implies #[trigger] templates_map(s)[s[i].key()] == s[i] by {
            if i < s.len() - 1 {
                assert(t[i] == s[i]);
                assert(s[i].key() != s[s.len() - 1].key());
            }
        }
    }
}

/// Inserting a template under a new key anywhere keeps keys distinct and adds that key.
pub proof fn lemma_map_insert_new(s: Seq<Template>, p: int, t: Template)
    requires
        unique_keys(s),
        0 <= p <= s.len(),
        forall|i: int| 0 <= i < s.len() ==> #[trigger] s[i].key() != t.key(),
    ensures
        unique_keys(s.insert(p, t)),
        templates_map(s.insert(p, t)) == templates_map(s).insert(t.key(), t),
{
    let s2 = s.insert(p, t);
    assert forall|i: int, j: int|
        0 <= i < s2.len() && 0 <= j < s2.len() && i != j implies #[trigger] s2[i].key() != #[trigger] s2[j].key() by {
        if i != p && j != p {
            let a = if i < p { i } else { i - 1 };
            let b = if j < p { j } else { j - 1 };
            assert(s2[i] == s[a] && s2[j] == s[b]);
        } else if i == p {
            let b = if j < p { j } else { j - 1 };
            assert(s2[j] == s[b]);
        } else {
            let a = if i < p { i } else { i - 1 };
            assert(s2[i] == s[a]);
        }
    }
    lemma_templates_map(s);
    lemma_templates_map(s2);
    let m = templates_map(s).insert(t.key(), t);
    assert forall|k: Seq<char>| #[trigger] templates_map(s2).contains_key(k) <==> m.contains_key(k) by {
        if templates_map(s2).contains_key(k) {
            let i = choose|i: int| 0 <= i < s2.len() && s2[i].key() == k;
            if i < p {
                assert(s[i] == s2[i]);
                assert(templates_map(s).contains_key(k));
            } else if i > p {
                assert(s[i - 1] == s2[i]);
                assert(templates_map(s).contains_key(k));
            }
        }
        if m.contains_key(k) {
            if k == t.key() {
                assert(s2[p].key() == k);
            } else {
                assert(templates_map(s).contains_key(k));
                let i = choose|i: int| 0 <= i < s.len() && s[i].key() == k;
                if i < p {
                    assert(s2[i] == s[i]);
                } else {
                    assert(s2[i + 1] == s[i]);
                }
            }
        }
    }
    assert forall|k: Seq<char>| #[trigger] templates_map(s2).contains_key(k) implies templates_map(s2)[k] == m[k] by {
        let i = choose|i: int| 0 <= i < s2.len() && s2[i].key() == k;
        if i < p {
            assert(s[i] == s2[i]);
        } else if i > p {
            assert(s[i - 1] == s2[i]);
        }
    }
    assert(templates_map(s2) =~= m);
}

/// Replacing the template at a position by one with the same key replaces that key's value.
pub proof fn lemma_map_update_same_key(s: Seq<Template>, p: int, t: Template)
    requires
        unique_keys(s),
        0 <= p < s.len(),
        s[p].key() == t.key(),
    ensures
        unique_keys(s.update(p, t)),
        templates_map(s.update(p, t)) == templates_map(s).insert(t.key(), t),
{
    let s2 = s.update(p, t);
    assert forall|i: int, j: int|
        0 <= i < s2.len() && 0 <= j < s2.len() && i != j implies #[trigger] s2[i].key() != #[trigger] s2[j].key() by {
        assert(s2[i].key() == s[i].key() && s2[j].key() == s[j].key());
    }
    lemma_templates_map(s);
    lemma_templates_map(s2);
    let m = templates_map(s).insert(t.key(), t);
    assert forall|k: Seq<char>| #[trigger] templates_map(s2).contains_key(k) <==> m.contains_key(k) by {
        if templates_map(s2).contains_key(k) {
            let i = choose|i: int| 0 <= i < s2.len() && s2[i].key() == k;
            assert(s[i].key() == k);
            assert(templates_map(s).contains_key(k));
        }
        if m.contains_key(k) && k == t.key() {
            assert(s2[p].key() == k);
        }
        if m.contains_key(k) && k != t.key() {
            let i = choose|i: int| 0 <= i < s.len() && s[i].key() == k;
            assert(s2[i].key() == k);
        }
    }
    assert forall|k: Seq<char>| #[trigger] templates_map(s2).contains_key(k) implies templates_map(s2)[k] == m[k] by {
        let i = choose|i: int| 0 <= i < s2.len() && s2[i].key() == k;
        if i != p {
            assert(s[i] == s2[i]);
        }
    }
    assert(templates_map(s2) =~= m);
}

/// Removing the template at a position removes exactly its key.
pub proof fn lemma_map_remove(s: Seq<Template>, p: int)
    requires
        unique_keys(s),
        0 <= p < s.len(),
    ensures
        unique_keys(s.remove(p)),
        templates_map(s.remove(p)) == templates_map(s).remove(s[p].key()),
{
    let s2 = s.remove(p);
    assert forall|i: int, j: int|
        0 <= i < s2.len() && 0 <= j < s2.len() && i != j implies #[trigger] s2[i].key() != #[trigger] s2[j].key() by {
        let a = if i < p { i } else { i + 1 };
        let b = if j < p { j } else { j + 1 };
        assert(s2[i] == s[a] && s2[j] == s[b]);
    }
    lemma_templates_map(s);
    lemma_templates_map(s2);
    let m = templates_map(s).remove(s[p].key());
    assert forall|k: Seq<char>| #[trigger] templates_map(s2).contains_key(k) <==> m.contains_key(k) by {
        if templates_map(s2).contains_key(k) {
            let i = choose|i: int| 0 <= i < s2.len() && s2[i].key() == k;
            let a = if i < p { i } else { i + 1 };
            assert(s2[i] == s[a]);
            assert(templates_map(s).contains_key(k));
        }
        if m.contains_key(k) {
            let i = choose|i: int| 0 <= i < s.len() && s[i].key() == k;
            if i < p {
                assert(s2[i] == s[i]);
            } else {
                assert(s2[i - 1] == s[i]);
            }
        }
    }
    assert forall|k: Seq<char>| #[trigger] templates_map(s2).contains_key(k) implies templates_map(s2)[k] == m[k] by {
        let i = choose|i: int| 0 <= i < s2.len() && s2[i].key() == k;
        let a = if i < p { i } else { i + 1 };
        assert(s2[i] == s[a]);
    }
    assert(templates_map(s2) =~= m);
}

/// Two listings in strict key order that hold the same keyed templates are identical.
pub proof fn lemma_sorted_listing_unique(a: Seq<Template>, b: Seq<Template>)
    requires
        sorted_by_key(a),
        sorted_by_key(b),
        templates_map(a) == templates_map(b),
    ensures
        a == b,
    decreases a.len(),
{
    lemma_sorted_unique(a);
    lemma_sorted_unique(b);
    lemma_templates_map(a);
    lemma_templates_map(b);
    if a.len() == 0 {
        if b.len() > 0 {
            assert(templates_map(b).contains_key(b[0].key()));
        }
        assert(a =~= b);
    } else if b.len() == 0 {
        assert(templates_map(a).contains_key(a[0].key()));
    } else {
        let la = a.len() - 1;
        let lb = b.len() - 1;
        let k = a[la].key();
        assert(templates_map(a).contains_key(k));
        let j = choose|j: int| 0 <= j < b.len() && b[j].key() == k;
        assert(templates_map(b).contains_key(b[lb].key()));
        let i = choose|i: int| 0 <= i < a.len() && a[i].key() == b[lb].key();
        if j < lb {
            assert(seq_lt(k, b[lb].key()));
            if i < la {
                assert(seq_lt(a[i].key(), k));
                crate::text::lemma_seq_lt_asymmetric(k, b[lb].key());
            } else {
                lemma_seq_lt_irreflexive(k);
            }
        }
        assert(j == lb);
        assert(a[la] == templates_map(a)[k]);
        assert(b[lb] == templates_map(b)[k]);
        lemma_map_remove(a, la);
        lemma_map_remove(b, lb);
        assert(a.remove(la) =~= a.drop_last());
        assert(b.remove(lb) =~= b.drop_last());
        let a2 = a.drop_last();
        let b2 = b.drop_last();
        assert(sorted_by_key(a2)) by {
            assert forall|x: int, y: int| 0 <= x < y < a2.len() implies seq_lt(#[trigger] a2[x].key(), #[trigger] a2[y].key()) by {
                assert(a2[x] == a[x] && a2[y] == a[y]);
            }
        }
        assert(sorted_by_key(b2)) by {
            assert forall|x: int, y: int| 0 <= x < y < b2.len() implies seq_lt(#[trigger] b2[x].key(), #[trigger] b2[y].key()) by {
                assert(b2[x] == b[x] && b2[y] == b[y]);
            }
        }
        lemma_sorted_listing_unique(a2, b2);
        assert(a =~= a2.push(a[la]));
        assert(b =~= b2.push(b[lb]));
    }
}

/// A keyed collection of templates, backed by one file.
/// Entries are kept in ascending name order, so listing is deterministic.
pub struct Store {
    path: String,
    templates: Vec<Template>,
}

impl View for Store {
    type V = Map<Seq<char>, Template>;

    closed spec fn view(&self) -> Map<Seq<char>, Template> {
        templates_map(self.templates@)
    }
}

impl Store {
    /// The templates in listing order.
    pub closed spec fn entries(&self) -> Seq<Template> {
        self.templates@
    }

    /// The file that backs the store.
    pub closed spec fn file(&self) -> Seq<char> {
        self.path@
    }

    /// Holds of every store: the constructors establish it and every method keeps it.
    pub closed spec fn wf(&self) -> bool {
        sorted_by_key(self.templates@)
    }

    /// The listing holds exactly the keyed templates, in strictly ascending name order.
    pub proof fn lemma_wf(&self)
        requires
            self.wf(),
        ensures
            sorted_by_key(self.entries()),
            unique_keys(self.entries()),
            self@ == templates_map(self.entries()),
            forall|k: Seq<char>|
                #[trigger] self@.contains_key(k) <==> exists|i: int|
                    0 <= i < self.entries().len() && self.entries()[i].key() == k,
            forall|i: int|
                0 <= i < self.entries().len() ==> #[trigger] self@[self.entries()[i].key()]
                    == self.entries()[i],
    {
        lemma_sorted_unique(self.templates@);
        lemma_templates_map(self.templates@);
    }

    /// Round trip of the entries handed out for saving: a store rebuilt from them
    /// holds the same templates, each equal in every field, in the same order.
    pub proof fn lemma_rebuild_round_trip(saved: Store, loaded: Store)
        requires
            saved.wf(),
            loaded.wf(),
            loaded@ == templates_map(saved.entries()),
        ensures
            loaded@ == saved@,
            loaded.entries() == saved.entries(),
    {
        lemma_sorted_listing_unique(loaded.templates@, saved.templates@);
    }

    /// An empty store backed by `path` (what a missing or empty file holds).
    pub fn new(path: String) -> (r: Store)
        ensures
            r.wf(),
            r.file() == path@,
            r@ == Map::<Seq<char>, Template>::empty(),
            r.entries().len() == 0,
    {
        Store { path, templates: Vec::new() }
    }

    /// The backing file's path.
    pub fn path(&self) -> (r: &str)
        ensures
            r@ == self.file(),
    {
        self.path.as_str()
    }

    /// Position of `name` in the listing: the number of entries that sort before it,
    /// and whether the entry there has that name.
    fn find(&self, name: &str) -> (r: (usize, bool))
        requires
            self.wf(),
        ensures
            r.0 <= self.templates@.len(),
            forall|i: int| 0 <= i < r.0 ==> seq_lt(#[trigger] self.templates@[i].key(), name@),
            forall|i: int|
                r.0 <= i < self.templates@.len() && !(r.1 && i == r.0) ==> seq_lt(
                    name@,
                    #[trigger] self.templates@[i].key(),
                ),
            r.1 ==> r.0 < self.templates@.len() && self.templates@[r.0 as int].key() == name@,
            r.1 <==> self@.contains_key(name@),
    {
        let n = self.templates.len();
        let mut i: usize = 0;
        let mut found = false;
        let mut done = false;
        while !done && i < n
            invariant
                n == self.templates@.len(),
                i <= n,
                self.wf(),
                forall|j: int| 0 <= j < i ==> seq_lt(#[trigger] self.templates@[j].key(), name@),
                done ==> i < n && !seq_lt(self.templates@[i as int].key(), name@),
                found ==> done && self.templates@[i as int].key() == name@,
                done && !found ==> seq_lt(name@, self.templates@[i as int].key()),
            decreases n - i + (if done { 0int } else { 1int }),
        {
            let c = compare_str(self.templates[i].manifest.name.as_str(), name);
            if c < 0 {
                i = i + 1;
            } else {
                done = true;
                found = c == 0;
            }
        }
        proof {
            let s = self.templates@;
            self.lemma_wf();
            assert forall|j: int|
                i <= j < s.len() && !(found && j == i) implies seq_lt(name@, #[trigger] s[j].key()) by {
                if j > i {
                    assert(seq_lt(s[i as int].key(), s[j].key()));
                    if !found {
                        crate::text::lemma_seq_lt_transitive(name@, s[i as int].key(), s[j].key());
                    }
                }
            }
            if self@.contains_key(name@) {
                let k = choose|k: int| 0 <= k < s.len() && s[k].key() == name@;
                lemma_seq_lt_irreflexive(name@);
                if !found {
                    assert(k >= i);
                    if k == i {
                    } else {
                        assert(seq_lt(name@, s[k].key()));
                    }
                }
            }
            if found {
                assert(s[i as int].key() == name@);
            }
        }
        (i, found)
    }
    /// Upserts `template` under its name: any prior entry of that name is replaced
    /// in full, and the listing keeps its order.
    pub fn add(&mut self, template: Template) -> (r: Result<(), StoreError>)
        requires
            old(self).wf(),
        ensures
            r is Ok,
            final(self).wf(),
            final(self).file() == old(self).file(),
            final(self)@ == old(self)@.insert(template.key(), template),
            old(self)@.contains_key(template.key()) ==> final(self).entries().len()
                == old(self).entries().len(),
            !old(self)@.contains_key(template.key()) ==> final(self).entries().len()
                == old(self).entries().len() + 1,
    {
        let (p, found) = self.find(template.manifest.name.as_str());
        let ghost s = self.templates@;
        let ghost t = template;
        proof {
            lemma_sorted_unique(s);
        }
        if found {
            self.templates.set(p, template);
            proof {
                lemma_map_update_same_key(s, p as int, t);
                let s2 = self.templates@;
                assert forall|i: int, j: int| 0 <= i < j < s2.len() implies seq_lt(#[trigger] s2[i].key(), #[trigger] s2[j].key()) by {
                    assert(s2[i].key() == s[i].key() && s2[j].key() == s[j].key());
                }
            }
        } else {
            self.templates.insert(p, template);
            proof {
                lemma_seq_lt_irreflexive(t.key());
                assert forall|i: int| 0 <= i < s.len() implies #[trigger] s[i].key() != t.key() by {
                    if i < p {
                        assert(seq_lt(s[i].key(), t.key()));
                    } else {
                        assert(seq_lt(t.key(), s[i].key()));
                    }
                }
                lemma_map_insert_new(s, p as int, t);
                let s2 = self.templates@;
                assert forall|i: int, j: int| 0 <= i < j < s2.len() implies seq_lt(#[trigger] s2[i].key(), #[trigger] s2[j].key()) by {
                    if j < p {
                        assert(s2[i] == s[i] && s2[j] == s[j]);
                    } else if j == p {
                        assert(s2[i] == s[i]);
                    } else if i < p {
                        assert(s2[i] == s[i] && s2[j] == s[j - 1]);
                    } else if i == p {
                        assert(s2[j] == s[j - 1]);
                    } else {
                        assert(s2[i] == s[i - 1] && s2[j] == s[j - 1]);
                    }
                }
            }
        }
        Ok(())
    }

    /// Removes the template called `name`, handing it back; `None` when absent.
    pub fn remove(&mut self, name: &str) -> (r: Option<Template>)
        requires
            old(self).wf(),
        ensures
            final(self).wf(),
            final(self).file() == old(self).file(),
            final(self)@ == old(self)@.remove(name@),
            old(self)@.contains_key(name@) ==> r == Some(old(self)@[name@])
                && final(self).entries().len() == old(self).entries().len() - 1,
            !old(self)@.contains_key(name@) ==> r is None && final(self).entries()
                == old(self).entries(),
    {
        let (p, found) = self.find(name);
        let ghost s = self.templates@;
        proof {
            lemma_sorted_unique(s);
            lemma_templates_map(s);
        }
        if found {
            let t = self.templates.remove(p);
            proof {
                lemma_map_remove(s, p as int);
                let s2 = self.templates@;
                assert forall|i: int, j: int| 0 <= i < j < s2.len() implies seq_lt(#[trigger] s2[i].key(), #[trigger] s2[j].key()) by {
                    let a = if i < p { i } else { i + 1 };
                    let b = if j < p { j } else { j + 1 };
                    assert(s2[i] == s[a] && s2[j] == s[b]);
                }
            }
            Some(t)
        } else {
            assert(templates_map(s).remove(name@) =~= templates_map(s));
            None
        }
    }

    /// Empties the store.
    pub fn clear(&mut self)
        ensures
            final(self).wf(),
            final(self).file() == old(self).file(),
            final(self)@ == Map::<Seq<char>, Template>::empty(),
            final(self).entries().len() == 0,
    {
        self.templates.clear();
    }

    /// Sets the `ignored` flag of the template called `name`; reports whether it was present.
    pub fn set_ignored(&mut self, name: &str, state: bool) -> (r: Result<bool, StoreError>)
        requires
            old(self).wf(),
        ensures
            r == Ok::<bool, StoreError>(old(self)@.contains_key(name@)),
            final(self).wf(),
            final(self).file() == old(self).file(),
            final(self).entries().len() == old(self).entries().len(),
            old(self)@.contains_key(name@) ==> final(self)@ == old(self)@.insert(
                name@,
                old(self)@[name@].with_ignored(state),
            ),
            !old(self)@.contains_key(name@) ==> final(self)@ == old(self)@,
    {
        let (p, found) = self.find(name);
        let ghost s = self.templates@;
        proof {
            lemma_sorted_unique(s);
            lemma_templates_map(s);
        }
        if found {
            let mut t = self.templates.remove(p);
            t.manifest.ignored = state;
            self.templates.insert(p, t);
            proof {
                let t2 = s[p as int].with_ignored(state);
                assert(self.templates@ =~= s.update(p as int, t2));
                lemma_map_update_same_key(s, p as int, t2);
                let s2 = self.templates@;
                assert forall|i: int, j: int| 0 <= i < j < s2.len() implies seq_lt(#[trigger] s2[i].key(), #[trigger] s2[j].key()) by {
                    assert(s2[i].key() == s[i].key() && s2[j].key() == s[j].key());
                }
            }
            Ok(true)
        } else {
            Ok(false)
        }
    }

    /// The templates in ascending name order.
    pub fn list(&self) -> (r: Vec<&Template>)
        requires
            self.wf(),
        ensures
            r@.len() == self.entries().len(),
            forall|i: int| 0 <= i < r@.len() ==> *r@[i] == self.entries()[i],
            forall|i: int, j: int| 0 <= i < j < r@.len() ==> seq_lt(#[trigger] r@[i].key(), #[trigger] r@[j].key()),
            forall|k: Seq<char>| #[trigger] self@.contains_key(k) <==> exists|i: int| 0 <= i < r@.len() && r@[i].key() == k,
            forall|i: int| 0 <= i < r@.len() ==> self@[#[trigger] r@[i].key()] == *r@[i],
    {
        proof {
            self.lemma_wf();
        }
        let mut out: Vec<&Template> = Vec::new();
        let n = self.templates.len();
        let mut i: usize = 0;
        while i < n
            invariant
                n == self.templates@.len(),
                i <= n,
                out@.len() == i,
                forall|j: int| 0 <= j < i ==> *out@[j] == self.templates@[j],
            decreases n - i,
        {
            out.push(&self.templates[i]);
            i = i + 1;
        }
        proof {
            let e = self.entries();
            assert forall|k: Seq<char>| #[trigger] self@.contains_key(k) <==> exists|i: int| 0 <= i < out@.len() && out@[i].key() == k by {
                if self@.contains_key(k) {
                    let j = choose|j: int| 0 <= j < e.len() && e[j].key() == k;
                    assert(out@[j].key() == k);
                }
                if exists|i: int| 0 <= i < out@.len() && out@[i].key() == k {
                    let j = choose|j: int| 0 <= j < out@.len() && out@[j].key() == k;
                    assert(e[j].key() == k);
                }
            }
        }
        out
    }

    /// Walks the templates in ascending name order.
    pub fn iter(&self) -> (r: std::slice::Iter<'_, Template>)
        ensures
            vstd::std_specs::slice::into_iter_elts(r) == self.entries(),
    {
        self.templates.as_slice().iter()
    }

    /// Builds a store backed by `path` from templates, upserting them in order.
    pub fn from_templates(path: String, templates: Vec<Template>) -> (r: Store)
        ensures
            r.wf(),
            r.file() == path@,
            r@ == templates_map(templates@),
    {
        let mut store = Store::new(path);
        let mut rest = templates;
        let ghost all = rest@;
        while rest.len() > 0
            invariant
                store.wf(),
                store.file() == path@,
                rest@.len() <= all.len(),
                rest@ == all.subrange(all.len() - rest@.len(), all.len() as int),
                store@ == templates_map(all.subrange(0, all.len() - rest@.len())),
            decreases rest@.len(),
        {
            let ghost k = all.len() - rest@.len();
            let t = rest.remove(0);
            assert(all.subrange(0, k + 1).drop_last() =~= all.subrange(0, k));
            assert(rest@ =~= all.subrange(k + 1, all.len() as int));
            store.add(t);
        }
        assert(all.subrange(0, all.len() as int) =~= all);
        store
    }
}

} // verus!
