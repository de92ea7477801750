//! The bundle store: the saved bundles kept ascending by update time (ties
//! broken by id), together with the high-water mark of the id allocator.

use vstd::prelude::*;

use crate::binfmt::{dec_bundle, decode_bundle};
use crate::bundle::{Bundle, BundleView};
use crate::errors::BundleError;

verus! {

/// Strict order of the store's index: ascending by `updated`, ties broken by
/// `id`.
pub open spec fn lt_key(a: BundleView, b: BundleView) -> bool {
    a.updated < b.updated || (a.updated == b.updated && a.id < b.id)
}

pub open spec fn sorted_by_key(s: Seq<BundleView>) -> bool {
    forall|i: int, j: int| 0 <= i < j < s.len() ==> lt_key(s[i], s[j])
}

pub open spec fn ids_unique(s: Seq<BundleView>) -> bool {
    forall|i: int, j: int| 0 <= i < j < s.len() ==> s[i].id != s[j].id
}

pub open spec fn ids_at_most(s: Seq<BundleView>, hw: u16) -> bool {
    forall|i: int| 0 <= i < s.len() ==> s[i].id <= hw
}

/// The saved bundles without any bundle of the given id.
pub open spec fn remove_id(s: Seq<BundleView>, id: u16) -> Seq<BundleView>
    decreases s.len(),
{
    if s.len() == 0 {
        s
    } else if s[0].id == id {
        remove_id(s.drop_first(), id)
    } else {
        seq![s[0]] + remove_id(s.drop_first(), id)
    }
}

/// Insertion before the first entry that does not come before `b`.
pub open spec fn insert_sorted(s: Seq<BundleView>, b: BundleView) -> Seq<BundleView>
    decreases s.len(),
{
    if s.len() == 0 {
        seq![b]
    } else if !lt_key(s[0], b) {
        seq![b] + s
    } else {
        seq![s[0]] + insert_sorted(s.drop_first(), b)
    }
}

/// What an upsert does to the index: any entry with the same id leaves, the
/// bundle enters at its ordered position.
pub open spec fn upsert_spec(s: Seq<BundleView>, b: BundleView) -> Seq<BundleView> {
    insert_sorted(remove_id(s, b.id), b)
}

/// The index and high-water mark a fresh load of the given records builds:
/// each record that decodes is placed, the rest are skipped.
pub open spec fn init_fold(files: Seq<Seq<u8>>) -> (Seq<BundleView>, u16)
    decreases files.len(),
{
    if files.len() == 0 {
        (Seq::empty(), 0u16)
    } else {
        let p = init_fold(files.drop_last());
        match dec_bundle(files.last()) {
            Some(b) => (upsert_spec(p.0, b), if b.id > p.1 {
                b.id
            } else {
                p.1
            }),
            None => p,
        }
    }
}

/// The saved bundles, ordered by `(updated, id)`, with the id allocator's
/// high-water mark.
pub struct Bundles {
    saved: Vec<Bundle>,
    id: u16,
}

impl Bundles {
    /// The index as a sequence of bundle shapes.
    pub closed spec fn bundles(self) -> Seq<BundleView> {
        self.saved@.map(|i: int, b: Bundle| b@)
    }

    /// Largest id ever issued or observed.
    pub closed spec fn high_water(self) -> u16 {
        self.id
    }

    /// The store's invariant: index sorted, ids unique and covered by the
    /// high-water mark.
    pub open spec fn wf(self) -> bool {
        &&& sorted_by_key(self.bundles())
        &&& ids_unique(self.bundles())
        &&& ids_at_most(self.bundles(), self.high_water())
    }
}

proof fn lemma_remove_id_not_present(s: Seq<BundleView>, id: u16)
    requires
        forall|i: int| 0 <= i < s.len() ==> s[i].id != id,
    ensures
        remove_id(s, id) == s,
    decreases s.len(),
{
    if s.len() > 0 {
        assert(forall|i: int|
            0 <= i < s.drop_first().len() ==> s.drop_first()[i] == s[i + 1] && s[i + 1].id != id);
        lemma_remove_id_not_present(s.drop_first(), id);
        assert(seq![s[0]] + s.drop_first() =~= s);
    }
}

proof fn lemma_remove_id_at(s: Seq<BundleView>, id: u16, at: int)
    requires
        0 <= at < s.len(),
        s[at].id == id,
        forall|i: int| 0 <= i < s.len() && i != at ==> s[i].id != id,
    ensures
        remove_id(s, id) == s.remove(at),
    decreases s.len(),
{
    if at == 0 {
        assert(forall|i: int|
            0 <= i < s.drop_first().len() ==> s.drop_first()[i] == s[i + 1] && s[i + 1].id != id);
        lemma_remove_id_not_present(s.drop_first(), id);
        assert(s.remove(0) =~= s.drop_first());
    } else {
        assert(forall|i: int| 0 <= i < s.drop_first().len() ==> s.drop_first()[i] == s[i + 1]);
        lemma_remove_id_at(s.drop_first(), id, at - 1);
        assert(s.remove(at) =~= seq![s[0]] + s.drop_first().remove(at - 1));
    }
}

proof fn lemma_remove_id_props(s: Seq<BundleView>, id: u16)
    requires
        sorted_by_key(s),
        ids_unique(s),
    ensures
        sorted_by_key(remove_id(s, id)),
        ids_unique(remove_id(s, id)),
        forall|i: int| 0 <= i < remove_id(s, id).len() ==> #[trigger] remove_id(s, id)[i].id != id,
        forall|i: int|
            0 <= i < remove_id(s, id).len() ==> s.contains(#[trigger] remove_id(s, id)[i]),
    decreases s.len(),
{
    let r = remove_id(s, id);
    if s.len() > 0 {
        let t = s.drop_first();
        assert(forall|i: int| 0 <= i < t.len() ==> t[i] == s[i + 1]);
        lemma_remove_id_props(t, id);
        assert(forall|i: int| 0 <= i < remove_id(t, id).len() ==> t.contains(
            #[trigger] remove_id(t, id)[i],
        ));
        assert(forall|i: int| 0 <= i < t.len() ==> s.contains(t[i]));
        if s[0].id == id {
            assert(r == remove_id(t, id));
        } else {
            assert(r == seq![s[0]] + remove_id(t, id));
            assert(forall|i: int| 1 <= i < r.len() ==> r[i] == remove_id(t, id)[i - 1]);
            assert(s.contains(s[0]));
            assert forall|i: int, j: int| 0 <= i < j < r.len() implies lt_key(r[i], r[j])
                && r[i].id != r[j].id by {
                if i == 0 {
                    let x = remove_id(t, id)[j - 1];
                    assert(t.contains(x));
                    let k = choose|k: int| 0 <= k < t.len() && t[k] == x;
                    assert(s[k + 1] == x);
                    assert(lt_key(s[0], s[k + 1]));
                    assert(s[0].id != s[k + 1].id);
                }
            }
        }
    }
}

proof fn lemma_insert_sorted_props(s: Seq<BundleView>, b: BundleView)
    requires
        sorted_by_key(s),
        ids_unique(s),
        forall|i: int| 0 <= i < s.len() ==> s[i].id != b.id,
    ensures
        sorted_by_key(insert_sorted(s, b)),
        ids_unique(insert_sorted(s, b)),
        insert_sorted(s, b).contains(b),
        forall|i: int|
            0 <= i < insert_sorted(s, b).len() ==> (s.contains(#[trigger] insert_sorted(s, b)[i])
                || insert_sorted(s, b)[i] == b),
        insert_sorted(s, b).len() == s.len() + 1,
    decreases s.len(),
{
    let r = insert_sorted(s, b);
    if s.len() == 0 {
        assert(r == seq![b]);
        assert(r[0] == b);
    } else if !lt_key(s[0], b) {
        assert(r == seq![b] + s);
        assert(r[0] == b);
        assert(forall|i: int| 1 <= i < r.len() ==> r[i] == s[i - 1]);
        assert forall|i: int, j: int| 0 <= i < j < r.len() implies lt_key(r[i], r[j])
            && r[i].id != r[j].id by {
            if i == 0 {
                assert(s[0].id != b.id);
                assert(lt_key(b, s[0]));
                if j - 1 > 0 {
                    assert(lt_key(s[0], s[j - 1]));
                }
                assert(lt_key(b, s[j - 1]));
                assert(s[j - 1].id != b.id);
            }
        }
        assert(forall|i: int| 0 <= i < s.len() ==> s.contains(s[i]));
    } else {
        let t = s.drop_first();
        assert(forall|i: int| 0 <= i < t.len() ==> t[i] == s[i + 1]);
        lemma_insert_sorted_props(t, b);
        assert(r == seq![s[0]] + insert_sorted(t, b));
        assert(forall|i: int| 1 <= i < r.len() ==> r[i] == insert_sorted(t, b)[i - 1]);
        let k = choose|k: int| 0 <= k < insert_sorted(t, b).len() && insert_sorted(t, b)[k] == b;
        assert(r[k + 1] == b);
        assert(r.contains(b));
        assert(forall|i: int| 0 <= i < t.len() ==> s.contains(t[i]));
        assert(s.contains(s[0]));
        assert forall|i: int, j: int| 0 <= i < j < r.len() implies lt_key(r[i], r[j])
            && r[i].id != r[j].id by {
            if i == 0 {
                let x = insert_sorted(t, b)[j - 1];
                if x == b {
                    assert(lt_key(s[0], b));
                    assert(s[0].id != b.id);
                } else {
                    assert(t.contains(x));
                    let m = choose|m: int| 0 <= m < t.len() && t[m] == x;
                    assert(s[m + 1] == x);
                    assert(lt_key(s[0], s[m + 1]));
                    assert(s[0].id != s[m + 1].id);
                }
            }
        }
    }
}

proof fn lemma_insert_sorted_at(s: Seq<BundleView>, b: BundleView, at: int)
    requires
        0 <= at <= s.len(),
        forall|k: int| 0 <= k < at ==> lt_key(s[k], b),
        at < s.len() ==> !lt_key(s[at], b),
    ensures
        insert_sorted(s, b) == s.insert(at, b),
    decreases s.len(),
{
    if s.len() == 0 {
        assert(insert_sorted(s, b) =~= s.insert(0, b));
    } else if at == 0 {
        assert(insert_sorted(s, b) =~= s.insert(0, b));
    } else {
        let t = s.drop_first();
        assert(forall|i: int| 0 <= i < t.len() ==> t[i] == s[i + 1]);
        assert(lt_key(s[0], b));
        lemma_insert_sorted_at(t, b, at - 1);
        assert(s.insert(at, b) =~= seq![s[0]] + t.insert(at - 1, b));
    }
}

/// What an upsert preserves: order, unique ids, the high-water bound, the
/// presence of the bundle, and that nothing enters from outside.
pub proof fn lemma_upsert_spec_props(s: Seq<BundleView>, b: BundleView, hw: u16)
    requires
        sorted_by_key(s),
        ids_unique(s),
        ids_at_most(s, hw),
        b.id <= hw,
    ensures
        sorted_by_key(upsert_spec(s, b)),
        ids_unique(upsert_spec(s, b)),
        ids_at_most(upsert_spec(s, b), hw),
        upsert_spec(s, b).contains(b),
        forall|i: int|
            0 <= i < upsert_spec(s, b).len() ==> (s.contains(#[trigger] upsert_spec(s, b)[i])
                || upsert_spec(s, b)[i] == b),
{
    lemma_remove_id_props(s, b.id);
    lemma_insert_sorted_props(remove_id(s, b.id), b);
    assert forall|i: int|
        0 <= i < upsert_spec(s, b).len() implies (s.contains(#[trigger] upsert_spec(s, b)[i])
        || upsert_spec(s, b)[i] == b) by {
        if upsert_spec(s, b)[i] != b {
            let x = upsert_spec(s, b)[i];
            let k = choose|k: int|
                0 <= k < remove_id(s, b.id).len() && remove_id(s, b.id)[k] == x;
        }
    }
    assert forall|i: int|
        0 <= i < upsert_spec(s, b).len() implies #[trigger] upsert_spec(s, b)[i].id <= hw by {
        if upsert_spec(s, b)[i] != b {
            let x = upsert_spec(s, b)[i];
            assert(s.contains(x));
            let k = choose|k: int| 0 <= k < s.len() && s[k] == x;
        }
    }
}

/// A fresh load always builds a well-formed store.
pub proof fn lemma_init_fold_wf(files: Seq<Seq<u8>>)
    ensures
        sorted_by_key(init_fold(files).0),
        ids_unique(init_fold(files).0),
        ids_at_most(init_fold(files).0, init_fold(files).1),
    decreases files.len(),
{
    if files.len() > 0 {
        lemma_init_fold_wf(files.drop_last());
        let p = init_fold(files.drop_last());
        match dec_bundle(files.last()) {
            Some(b) => {
                let hw = if b.id > p.1 {
                    b.id
                } else {
                    p.1
                };
                assert(ids_at_most(p.0, hw));
                lemma_upsert_spec_props(p.0, b, hw);
            },
            None => {
            },
        }
    }
}

impl Bundles {
    /// Places a bundle in the index: any entry with its id leaves, the bundle
    /// enters at its ordered position, and the high-water mark covers it.
    fn place(&mut self, bundle: Bundle)
        requires
            old(self).wf(),
        ensures
            final(self).wf(),
            final(self).bundles() == upsert_spec(old(self).bundles(), bundle@),
            final(self).high_water() == if bundle.id > old(self).high_water() {
                bundle@.id
            } else {
                old(self).high_water()
            },
    {
        let ghost s0 = self.bundles();
        // drop any entry that carries the same id
        let mut i: usize = 0;
        let mut found: bool = false;
        let mut at: usize = 0;
        while i < self.saved.len()
            invariant
                i <= self.saved@.len(),
                !found ==> forall|k: int| 0 <= k < i ==> self.bundles()[k].id != bundle@.id,
                found ==> at < i && self.bundles()[at as int].id == bundle@.id,
                found ==> at < self.saved@.len(),
            decreases self.saved@.len() - i,
        {
            if !found && self.saved[i].id == bundle.id {
                found = true;
                at = i;
            }
            i = i + 1;
        }
        if found {
            self.saved.remove(at);
            proof {
                lemma_remove_id_at(s0, bundle@.id, at as int);
                assert(self.bundles() =~= s0.remove(at as int));
            }
        } else {
            proof {
                lemma_remove_id_not_present(s0, bundle@.id);
            }
        }
        proof {
            lemma_remove_id_props(s0, bundle@.id);
            assert(self.bundles() == remove_id(s0, bundle@.id));
        }
        let ghost s1 = self.bundles();
        // find the ordered position
        let mut pos: usize = 0;
        while pos < self.saved.len() && lt_key_exec(&self.saved[pos], &bundle)
            invariant
                pos <= self.saved@.len(),
                self.bundles() == s1,
                forall|k: int| 0 <= k < pos ==> lt_key(s1[k], bundle@),
            decreases self.saved@.len() - pos,
        {
            pos = pos + 1;
        }
        let bundle_id = bundle.id;
        self.saved.insert(pos, bundle);
        proof {
            lemma_insert_sorted_at(s1, bundle@, pos as int);
            assert(self.bundles() =~= s1.insert(pos as int, bundle@));
            lemma_insert_sorted_props(s1, bundle@);
        }
        if bundle_id > self.id {
            self.id = bundle_id;
        }
        proof {
            assert forall|i2: int|
                0 <= i2 < self.bundles().len() implies self.bundles()[i2].id
                <= self.high_water() by {
                if self.bundles()[i2] != bundle@ {
                    assert(s1.contains(self.bundles()[i2]));
                    let k = choose|k: int| 0 <= k < s1.len() && s1[k] == self.bundles()[i2];
                    assert(s0.contains(s1[k]));
                }
            }
        }
    }
}

/// Whether `a` comes before `b` in the index order.
fn lt_key_exec(a: &Bundle, b: &Bundle) -> (r: bool)
    ensures
        r == lt_key(a@, b@),
{
    a.updated < b.updated || (a.updated == b.updated && a.id < b.id)
}

impl Bundles {
    /// Rebuilds the store from the per-bundle records of the store directory.
    /// A record that does not decode is skipped; nothing aborts the load.
    pub fn init(files: &Vec<Vec<u8>>) -> (r: Bundles)
        ensures
            r.wf(),
            (r.bundles(), r.high_water()) == init_fold(files.deep_view()),
    {
        let mut r = Bundles { saved: Vec::new(), id: 0 };
        proof {
            assert(r.bundles() =~= Seq::<BundleView>::empty());
            assert(files.deep_view().take(0) =~= Seq::<Seq<u8>>::empty());
        }
        let mut i: usize = 0;
        while i < files.len()
            invariant
                i <= files@.len(),
                files.deep_view().len() == files@.len(),
                forall|k: int| 0 <= k < files@.len() ==> files.deep_view()[k] == files@[k]@,
                r.wf(),
                (r.bundles(), r.high_water()) == init_fold(files.deep_view().take(i as int)),
            decreases files@.len() - i,
        {
            let ghost pre = files.deep_view().take(i as int);
            proof {
                assert(files.deep_view().take(i as int + 1).drop_last() =~= pre);
                assert(files.deep_view().take(i as int + 1).last() == files@[i as int]@);
            }
            match decode_bundle(&files[i]) {
                Some(b) => {
                    r.place(b);
                },
                None => {
                },
            }
            i = i + 1;
        }
        proof {
            assert(files.deep_view().take(files@.len() as int) =~= files.deep_view());
        }
        r
    }

    /// Issues the next bundle id; ids are never recycled.
    pub fn next_id(&mut self) -> (r: Result<u16, BundleError>)
        requires
            old(self).wf(),
        ensures
            final(self).wf(),
            final(self).bundles() == old(self).bundles(),
            old(self).high_water() == u16::MAX ==> r == Err::<u16, BundleError>(
                BundleError::ExhaustedIds,
            ) && final(self).high_water() == old(self).high_water(),
            old(self).high_water() < u16::MAX ==> r == Ok::<u16, BundleError>(
                final(self).high_water(),
            ) && final(self).high_water() == old(self).high_water() + 1,
    {
        if self.id == u16::MAX {
            Err(BundleError::ExhaustedIds)
        } else {
            self.id = self.id + 1;
            Ok(self.id)
        }
    }

    /// Saves or replaces a bundle in the index, keeping the order.
    pub fn upsert(&mut self, bundle: Bundle)
        requires
            old(self).wf(),
        ensures
            final(self).wf(),
            final(self).bundles() == upsert_spec(old(self).bundles(), bundle@),
            final(self).high_water() == if bundle@.id > old(self).high_water() {
                bundle@.id
            } else {
                old(self).high_water()
            },
    {
        self.place(bundle);
    }

    /// Removes the bundle of the given id from the index, if any.
    pub fn delete(&mut self, id: u16)
        requires
            old(self).wf(),
        ensures
            final(self).wf(),
            final(self).bundles() == remove_id(old(self).bundles(), id),
            final(self).high_water() == old(self).high_water(),
    {
        let ghost s0 = self.bundles();
        let mut i: usize = 0;
        let mut found: bool = false;
        let mut at: usize = 0;
        while i < self.saved.len()
            invariant
                i <= self.saved@.len(),
                !found ==> forall|k: int| 0 <= k < i ==> self.bundles()[k].id != id,
                found ==> at < i && self.bundles()[at as int].id == id,
                found ==> at < self.saved@.len(),
            decreases self.saved@.len() - i,
        {
            if !found && self.saved[i].id == id {
                found = true;
                at = i;
            }
            i = i + 1;
        }
        if found {
            self.saved.remove(at);
            proof {
                lemma_remove_id_at(s0, id, at as int);
                assert(self.bundles() =~= s0.remove(at as int));
            }
        } else {
            proof {
                lemma_remove_id_not_present(s0, id);
            }
        }
        proof {
            lemma_remove_id_props(s0, id);
            assert forall|i2: int|
                0 <= i2 < self.bundles().len() implies self.bundles()[i2].id
                <= self.high_water() by {
                assert(s0.contains(self.bundles()[i2]));
                let k = choose|k: int| 0 <= k < s0.len() && s0[k] == self.bundles()[i2];
            }
        }
    }

    /// The saved bundles, ascending by `(updated, id)`.
    pub fn list(&self) -> (r: &Vec<Bundle>)
        ensures
            r@.len() == self.bundles().len(),
            forall|i: int| 0 <= i < r@.len() ==> r@[i]@ == self.bundles()[i],
    {
        &self.saved
    }

    /// The saved bundle of the given id, if any.
    pub fn get(&self, id: u16) -> (r: Option<&Bundle>)
        ensures
            match r {
                Some(b) => b@.id == id && self.bundles().contains(b@),
                None => forall|k: int| 0 <= k < self.bundles().len() ==> self.bundles()[k].id
                    != id,
            },
    {
        let mut i: usize = 0;
        while i < self.saved.len()
            invariant
                i <= self.saved@.len(),
                forall|k: int| 0 <= k < i ==> self.bundles()[k].id != id,
            decreases self.saved@.len() - i,
        {
            if self.saved[i].id == id {
                proof {
                    assert(self.bundles()[i as int] == self.saved@[i as int]@);
                }
                return Some(&self.saved[i]);
            }
            i = i + 1;
        }
        None
    }
}

} // verus!
