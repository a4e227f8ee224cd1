//! Features: their handles, the table of their names, and what a dependency
//! enables of its target.

use crate::arena::Slice;
use crate::id::{CrateId, VersionId};
use crate::text::same_text;
use vstd::prelude::*;

verus! {

/// Handle of an interned feature name.
#[derive(Copy, Clone, PartialEq, Eq, Structural, PartialOrd, Ord, Hash, Debug)]
pub struct FeatureId(pub u32);

impl FeatureId {
    pub open spec fn spec_krate() -> FeatureId {
        FeatureId(0)
    }

    /// The crate itself, which every dependency on it enables.
    #[verifier::when_used_as_spec(spec_krate)]
    pub fn krate() -> (id: FeatureId)
        ensures
            id == FeatureId::spec_krate(),
    {
        FeatureId(0)
    }

    pub open spec fn spec_default_feature() -> FeatureId {
        FeatureId(1)
    }

    /// The feature named `default`.
    #[verifier::when_used_as_spec(spec_default_feature)]
    pub fn default_feature() -> (id: FeatureId)
        ensures
            id == FeatureId::spec_default_feature(),
    {
        FeatureId(1)
    }

    pub open spec fn spec_tbd() -> FeatureId {
        FeatureId(0xffff_ffff)
    }

    /// Stands for the feature of an optional dependency until its name is
    /// known.
    #[verifier::when_used_as_spec(spec_tbd)]
    pub fn tbd() -> (id: FeatureId)
        ensures
            id == FeatureId::spec_tbd(),
    {
        FeatureId(0xffff_ffff)
    }
}

/// A feature of a crate.
#[derive(Copy, Clone, PartialEq, Eq, Structural, Debug)]
pub struct CrateFeature {
    pub crate_id: CrateId,
    pub feature_id: FeatureId,
}

/// A feature of one release: a node of the graph that transitive counting
/// walks.
#[derive(Copy, Clone, PartialEq, Eq, Structural, PartialOrd, Ord, Hash, Debug)]
pub struct VersionFeature {
    pub version_id: VersionId,
    pub feature_id: FeatureId,
}

/// Whether a dependency asks for the default features of its target.
#[derive(Copy, Clone, PartialEq, Eq, Structural, PartialOrd, Ord, Debug)]
pub struct DefaultFeatures(pub bool);

/// One feature that a release declares, with the features it enables:
/// of the release's own crate, or of a crate it depends on.
#[derive(Debug)]
pub struct FeatureEnables {
    pub id: FeatureId,
    pub enables: Slice<CrateFeature>,
    pub weak_enables: Slice<CrateFeature>,
}

/// What a `FeatureEnables` is, as a value.
pub struct FeatureEnablesView {
    pub id: FeatureId,
    pub enables: Seq<CrateFeature>,
    pub weak_enables: Seq<CrateFeature>,
}

impl View for FeatureEnables {
    type V = FeatureEnablesView;

    open spec fn view(&self) -> FeatureEnablesView {
        FeatureEnablesView {
            id: self.id,
            enables: self.enables@,
            weak_enables: self.weak_enables@,
        }
    }
}

impl FeatureEnables {
    /// All that the feature enables: what it enables for good, then what it
    /// enables only where the dependency is enabled. The tally follows both
    /// alike.
    pub open spec fn spec_all(&self) -> Seq<CrateFeature> {
        self.enables@ + self.weak_enables@
    }

    /// All that the feature enables.
    pub fn all(&self) -> (list: Vec<CrateFeature>)
        ensures
            list@ == self.spec_all(),
    {
        let mut list = self.enables.iter();
        let mut weak = self.weak_enables.iter();
        list.append(&mut weak);
        list
    }
}

/// The features as values.
pub open spec fn feature_views(features: Seq<FeatureEnables>) -> Seq<FeatureEnablesView> {
    Seq::new(features.len(), |i: int| features[i]@)
}

/// The table of feature names. A name's handle is its place in the table;
/// the first two places belong to the crate itself and to `default`.
pub struct FeatureNames {
    names: Vec<String>,
}

/// The names as texts.
pub open spec fn name_views(names: Seq<String>) -> Seq<Seq<char>> {
    Seq::new(names.len(), |i: int| names[i]@)
}

impl View for FeatureNames {
    type V = Seq<Seq<char>>;

    closed spec fn view(&self) -> Seq<Seq<char>> {
        name_views(self.names@)
    }
}

impl FeatureNames {
    /// No name stands twice in the table, and a handle can count its places.
    pub open spec fn wf(&self) -> bool {
        self@.len() <= u32::MAX && distinct_names(self@)
    }

    /// The table with its two reserved names.
    pub fn new() -> (table: FeatureNames)
        ensures
            table.wf(),
            table@ == seq![""@, "default"@],
    {
        let mut names: Vec<String> = Vec::new();
        names.push("".to_owned());
        names.push("default".to_owned());
        let table = FeatureNames { names };
        proof {
            reveal_strlit("");
            reveal_strlit("default");
            assert(table@ =~= seq![""@, "default"@]);
            assert(""@.len() == 0);
            assert("default"@.len() == 7);
            assert(table@[0] != table@[1]);
        }
        table
    }

    /// The place of `name` in the table, if it has one.
    pub fn find(&self, name: &str) -> (found: Option<FeatureId>)
        requires
            self.wf(),
        ensures
            match found {
                Some(id) => id.0 < self@.len() && self@[id.0 as int] == name@,
                None => !self@.contains(name@),
            },
    {
        let n = self.names.len();
        let mut i: usize = 0;
        while i < n
            invariant
                n == self.names@.len(),
                n <= u32::MAX,
                i <= n,
                forall|k: int| 0 <= k < i ==> self@[k] != name@,
            decreases n - i,
        {
            if same_text(self.names[i].as_str(), name) {
                return Some(FeatureId(i as u32));
            }
            i += 1;
        }
        None
    }

    /// The handle of `name`; a name not seen before gets the next free one.
    pub fn id(&mut self, name: &str) -> (id: FeatureId)
        requires
            old(self).wf(),
            old(self)@.len() < u32::MAX,
        ensures
            final(self).wf(),
            final(self)@[id.0 as int] == name@,
            id.0 < final(self)@.len(),
            old(self)@.contains(name@) ==> final(self)@ == old(self)@,
            !old(self)@.contains(name@) ==> final(self)@ == old(self)@.push(name@) && id.0
                == old(self)@.len(),
            final(self)@ == interned(old(self)@, seq![name@]),
            id == feature_of(final(self)@, name@),
    {
        proof {
            lemma_interned_one(self@, name@);
        }
        match self.find(name) {
            Some(id) => {
                proof {
                    lemma_feature_of(self@, name@, id.0 as int);
                }
                id
            },
            None => {
                let new_id = FeatureId(self.names.len() as u32);
                self.names.push(name.to_owned());
                proof {
                    assert(self@ =~= old(self)@.push(name@));
                    assert forall|i: int, j: int| 0 <= i < j < self@.len() implies #[trigger] self@[i]
                        != #[trigger] self@[j] by {
                        if j == old(self)@.len() {
                            assert(old(self)@[i] == self@[i]);
                            assert(old(self)@.contains(self@[i]));
                        }
                    }
                    lemma_feature_of(self@, name@, new_id.0 as int);
                }
                new_id
            },
        }
    }

    /// The name behind a handle.
    pub fn name(&self, id: FeatureId) -> (name: &str)
        requires
            id.0 < self@.len(),
        ensures
            name@ == self@[id.0 as int],
    {
        self.names[id.0 as usize].as_str()
    }

    pub fn len(&self) -> (n: usize)
        ensures
            n == self@.len(),
    {
        self.names.len()
    }
}

impl Default for FeatureNames {
    fn default() -> (table: FeatureNames)
        ensures
            table.wf(),
            table@ == seq![""@, "default"@],
    {
        FeatureNames::new()
    }
}

/// The table `names` after it has got each of `more` that it lacked, in
/// their order.
pub open spec fn interned(names: Seq<Seq<char>>, more: Seq<Seq<char>>) -> Seq<Seq<char>>
    decreases more.len(),
{
    if more.len() == 0 {
        names
    } else {
        let before = interned(names, more.drop_last());
        if before.contains(more.last()) {
            before
        } else {
            before.push(more.last())
        }
    }
}

/// The handle that the table `names` has for `name`.
pub open spec fn feature_of(names: Seq<Seq<char>>, name: Seq<char>) -> FeatureId {
    FeatureId(names.index_of(name) as u32)
}

/// No name stands twice in the table.
pub open spec fn distinct_names(names: Seq<Seq<char>>) -> bool {
    forall|i: int, j: int| 0 <= i < j < names.len() ==> #[trigger] names[i] != #[trigger] names[j]
}

/// In a table without repetition, the handle of a name is its place.
pub proof fn lemma_feature_of(names: Seq<Seq<char>>, name: Seq<char>, i: int)
    requires
        distinct_names(names),
        0 <= i < names.len(),
        names[i] == name,
    ensures
        names.index_of(name) == i,
        names.contains(name),
{
    let k = names.index_of(name);
    assert(names[k] == name);
    if k < i {
        assert(names[k] != names[i]);
    } else if i < k {
        assert(names[i] != names[k]);
    }
}

/// What a list holds after one more was put at its end.
pub proof fn lemma_push_in<T>(list: Seq<T>, last: T, x: T)
    ensures
        list.push(last).contains(x) <==> list.contains(x) || x == last,
        list.push(last) == list + seq![last],
{
    let after = list.push(last);
    if list.contains(x) {
        let i = choose|i: int| 0 <= i < list.len() && list[i] == x;
        assert(after[i] == x);
    }
    if x == last {
        assert(after[list.len() as int] == x);
    }
    assert(after =~= list + seq![last]);
}

/// To enter names one list after the other is to enter the joined list.
pub proof fn lemma_interned_concat(names: Seq<Seq<char>>, a: Seq<Seq<char>>, b: Seq<Seq<char>>)
    ensures
        interned(names, a + b) == interned(interned(names, a), b),
    decreases b.len(),
{
    if b.len() == 0 {
        assert(a + b =~= a);
    } else {
        lemma_interned_concat(names, a, b.drop_last());
        assert((a + b).drop_last() =~= a + b.drop_last());
        assert((a + b).last() == b.last());
    }
}

/// To enter one name is to add it at the end unless the table has it.
pub proof fn lemma_interned_one(names: Seq<Seq<char>>, name: Seq<char>)
    ensures
        interned(names, seq![name]) == if names.contains(name) {
            names
        } else {
            names.push(name)
        },
{
    let one = seq![name];
    assert(one.drop_last() =~= Seq::<Seq<char>>::empty());
    assert(interned(names, one.drop_last()) == names);
}

/// A table that names are entered in keeps its names at their places, gets
/// at most as many as are entered, and has each of them afterwards.
pub proof fn lemma_interned_grows(names: Seq<Seq<char>>, more: Seq<Seq<char>>)
    requires
        distinct_names(names),
    ensures
        distinct_names(interned(names, more)),
        names.len() <= interned(names, more).len() <= names.len() + more.len(),
        interned(names, more).take(names.len() as int) == names,
        forall|i: int| 0 <= i < more.len() ==> interned(names, more).contains(#[trigger] more[i]),
        forall|x: Seq<char>| names.contains(x) ==> #[trigger] interned(names, more).contains(x),
    decreases more.len(),
{
    if more.len() == 0 {
        assert(names.take(names.len() as int) =~= names);
    } else {
        let before = interned(names, more.drop_last());
        let after = interned(names, more);
        lemma_interned_grows(names, more.drop_last());
        assert(after.take(names.len() as int) =~= before.take(names.len() as int));
        assert forall|x: Seq<char>| before.contains(x) implies after.contains(x) by {
            let i = choose|i: int| 0 <= i < before.len() && before[i] == x;
            assert(after[i] == x);
        }
        assert forall|i: int| 0 <= i < more.len() implies after.contains(#[trigger] more[i]) by {
            if i < more.len() - 1 {
                assert(more.drop_last()[i] == more[i]);
                assert(before.contains(more[i]));
            } else if !before.contains(more.last()) {
                assert(after[before.len() as int] == more.last());
            }
        }
        if !before.contains(more.last()) {
            assert forall|i: int, j: int| 0 <= i < j < after.len() implies #[trigger] after[i]
                != #[trigger] after[j] by {
                if j == before.len() {
                    assert(before[i] == after[i]);
                    assert(before.contains(after[i]));
                }
            }
        }
    }
}

/// A name keeps its handle when names are entered in the table.
pub proof fn lemma_handle_stays(names: Seq<Seq<char>>, more: Seq<Seq<char>>, name: Seq<char>)
    requires
        distinct_names(names),
        names.contains(name),
    ensures
        feature_of(interned(names, more), name) == feature_of(names, name),
{
    lemma_interned_grows(names, more);
    let after = interned(names, more);
    let i = names.index_of(name);
    assert(names[i] == name);
    assert(after.take(names.len() as int)[i] == after[i]);
    lemma_feature_of(after, name, i);
}

/// The features of its target that a dependency enables: the crate alone
/// where it turns the default features off and lists none, else `default`
/// and then the features it lists.
pub open spec fn enabled_features(default_features: bool, features: Seq<FeatureId>) -> Seq<
    FeatureId,
> {
    if !default_features && features.len() == 0 {
        seq![FeatureId::krate()]
    } else {
        seq![FeatureId::default_feature()] + features
    }
}

/// Walks the features that a dependency enables.
pub struct FeatureIter {
    krate: bool,
    default: bool,
    other: Vec<FeatureId>,
    next: usize,
}

impl View for FeatureIter {
    type V = Seq<FeatureId>;

    /// What is still to come.
    closed spec fn view(&self) -> Seq<FeatureId> {
        let rest = self.other@.skip(self.next as int);
        if self.krate {
            seq![FeatureId::krate()] + rest
        } else if self.default {
            seq![FeatureId::default_feature()] + rest
        } else {
            rest
        }
    }
}

impl FeatureIter {
    #[verifier::type_invariant]
    closed spec fn inv(&self) -> bool {
        &&& self.next <= self.other@.len()
        &&& self.krate ==> !self.default && self.other@.len() == 0
    }

    pub fn new(default_features: DefaultFeatures, features: &Slice<FeatureId>) -> (it: FeatureIter)
        ensures
            it@ == enabled_features(default_features.0, features@),
    {
        let krate = !default_features.0 && features.is_empty();
        let it = FeatureIter { krate, default: !krate, other: features.iter(), next: 0 };
        proof {
            assert(it.other@.skip(0) =~= it.other@);
            assert(it@ =~= enabled_features(default_features.0, features@));
        }
        it
    }

    /// The next feature, `None` once all were handed out.
    pub fn next(&mut self) -> (item: Option<FeatureId>)
        ensures
            old(self)@.len() == 0 ==> item is None && final(self)@ == old(self)@,
            old(self)@.len() > 0 ==> item == Some(old(self)@[0]) && final(self)@ == old(self)@.skip(
                1,
            ),
    {
        proof {
            use_type_invariant(&*self);
        }
        if self.krate {
            self.krate = false;
            proof {
                assert(self@ =~= old(self)@.skip(1));
            }
            Some(FeatureId::krate())
        } else if self.default {
            self.default = false;
            proof {
                assert(self@ =~= old(self)@.skip(1));
            }
            Some(FeatureId::default_feature())
        } else if self.next < self.other.len() {
            let item = self.other[self.next];
            self.next = self.next + 1;
            proof {
                assert(self@ =~= old(self)@.skip(1));
            }
            Some(item)
        } else {
            None
        }
    }
}

} // verus!
