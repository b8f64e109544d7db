//! Queue roles and queue slot identifiers.
//!
//! A `QueueLabel` tags the role a hardware queue serves; a `QueueRef`
//! identifies one concrete queue slot inside a queue family. The allocator
//! produces a mapping from labels to the queue slots serving them, plus a
//! pool of allocated slots that no label claimed.

use vstd::prelude::*;

verus! {

/// The role a queue is allocated for: one of the engine's well-known roles,
/// or an arbitrary host-chosen name.
#[derive(Debug, Eq, Hash)]
pub enum QueueLabel {
    Graphics,
    Compute,
    Transfer,
    Presentation,
    VideoDecode,
    VideoEncode,
    Custom(String),
}

/// Mathematical value of a [`QueueLabel`]: custom names are compared by
/// their character content.
pub enum LabelV {
    Graphics,
    Compute,
    Transfer,
    Presentation,
    VideoDecode,
    VideoEncode,
    Custom(Seq<char>),
}

impl View for QueueLabel {
    type V = LabelV;

    open spec fn view(&self) -> LabelV {
        match self {
            QueueLabel::Graphics => LabelV::Graphics,
            QueueLabel::Compute => LabelV::Compute,
            QueueLabel::Transfer => LabelV::Transfer,
            QueueLabel::Presentation => LabelV::Presentation,
            QueueLabel::VideoDecode => LabelV::VideoDecode,
            QueueLabel::VideoEncode => LabelV::VideoEncode,
            QueueLabel::Custom(s) => LabelV::Custom(s@),
        }
    }
}

impl DeepView for QueueLabel {
    type V = LabelV;

    open spec fn deep_view(&self) -> LabelV {
        self@
    }
}

impl Clone for QueueLabel {
    fn clone(&self) -> (r: Self)
        ensures
            r@ == self@,
    {
        match self {
            QueueLabel::Graphics => QueueLabel::Graphics,
            QueueLabel::Compute => QueueLabel::Compute,
            QueueLabel::Transfer => QueueLabel::Transfer,
            QueueLabel::Presentation => QueueLabel::Presentation,
            QueueLabel::VideoDecode => QueueLabel::VideoDecode,
            QueueLabel::VideoEncode => QueueLabel::VideoEncode,
            QueueLabel::Custom(s) => QueueLabel::Custom(s.clone()),
        }
    }
}

impl PartialEq for QueueLabel {
    fn eq(&self, other: &QueueLabel) -> (r: bool) {
        match (self, other) {
            (QueueLabel::Graphics, QueueLabel::Graphics) => true,
            (QueueLabel::Compute, QueueLabel::Compute) => true,
            (QueueLabel::Transfer, QueueLabel::Transfer) => true,
            (QueueLabel::Presentation, QueueLabel::Presentation) => true,
            (QueueLabel::VideoDecode, QueueLabel::VideoDecode) => true,
            (QueueLabel::VideoEncode, QueueLabel::VideoEncode) => true,
            (QueueLabel::Custom(a), QueueLabel::Custom(b)) => *a == *b,
            _ => false,
        }
    }
}

impl vstd::std_specs::cmp::PartialEqSpecImpl for QueueLabel {
    open spec fn obeys_eq_spec() -> bool {
        true
    }

    open spec fn eq_spec(&self, other: &QueueLabel) -> bool {
        self@ == other@
    }
}

/// A stable identifier for one concrete hardware queue slot within a family.
#[derive(Debug, Copy, Clone, Eq, PartialEq, Hash, Structural)]
pub struct QueueRef {
    pub family: u32,
    pub index: u32,
}

/// The references mapped to label `l`, or the empty sequence where `l` is
/// not a key.
pub open spec fn refs_or_empty(m: Map<LabelV, Seq<QueueRef>>, l: LabelV) -> Seq<QueueRef> {
    if m.contains_key(l) {
        m[l]
    } else {
        Seq::empty()
    }
}

/// The indices mapped to family `f`, or the empty set where `f` is not a
/// key.
pub open spec fn indices_or_empty(m: Map<u32, Set<u32>>, f: u32) -> Set<u32> {
    if m.contains_key(f) {
        m[f]
    } else {
        Set::empty()
    }
}

/// No value occurs twice in the sequence.
pub open spec fn no_dup<A>(s: Seq<A>) -> bool {
    forall|i: int, j: int| 0 <= i < j < s.len() ==> s[i] != s[j]
}

/// Pushing a value inserts it into the sequence's set of values.
pub proof fn lemma_push_to_set<A>(s: Seq<A>, x: A)
    ensures
        s.push(x).to_set() == s.to_set().insert(x),
{
    assert forall|y: A| s.push(x).to_set().contains(y) implies s.to_set().insert(x).contains(
        y,
    ) by {
        let i = choose|i: int| 0 <= i < s.push(x).len() && s.push(x)[i] == y;
        if i < s.len() {
            assert(s[i] == y);
        }
    }
    assert forall|y: A| s.to_set().insert(x).contains(y) implies s.push(x).to_set().contains(
        y,
    ) by {
        if y == x {
            assert(s.push(x)[s.len() as int] == y);
        } else {
            let i = choose|i: int| 0 <= i < s.len() && s[i] == y;
            assert(s.push(x)[i] == y);
        }
    }
    assert(s.push(x).to_set() =~= s.to_set().insert(x));
}

spec fn label_map_of(entries: Seq<(QueueLabel, Vec<QueueRef>)>) -> Map<LabelV, Seq<QueueRef>>
    decreases entries.len(),
{
    if entries.len() == 0 {
        Map::empty()
    } else {
        label_map_of(entries.drop_last()).insert(entries.last().0@, entries.last().1@)
    }
}

spec fn label_keys_distinct(entries: Seq<(QueueLabel, Vec<QueueRef>)>) -> bool {
    forall|i: int, j: int| 0 <= i < j < entries.len() ==> entries[i].0@ != entries[j].0@
}

proof fn lemma_label_map_of(entries: Seq<(QueueLabel, Vec<QueueRef>)>)
    ensures
        forall|l: LabelV| #[trigger] label_map_of(entries).contains_key(l) <==> exists|i: int|
            0 <= i < entries.len() && entries[i].0@ == l,
        label_keys_distinct(entries) ==> forall|i: int|
            0 <= i < entries.len() ==> #[trigger] label_map_of(entries)[entries[i].0@]
                == entries[i].1@,
    decreases entries.len(),
{
    if entries.len() > 0 {
        let pre = entries.drop_last();
        lemma_label_map_of(pre);
        assert forall|l: LabelV| #[trigger] label_map_of(entries).contains_key(l) implies exists|
            i: int,
        | 0 <= i < entries.len() && entries[i].0@ == l by {
            if l == entries.last().0@ {
                assert(entries[entries.len() - 1].0@ == l);
            } else {
                assert(label_map_of(pre).contains_key(l));
                let i = choose|i: int| 0 <= i < pre.len() && pre[i].0@ == l;
                assert(pre[i] == entries[i]);
                assert(entries[i].0@ == l);
            }
        }
        assert forall|l: LabelV|
            (exists|i: int| 0 <= i < entries.len() && entries[i].0@ == l) implies #[trigger]
            label_map_of(entries).contains_key(l) by {
            let i = choose|i: int| 0 <= i < entries.len() && entries[i].0@ == l;
            if i < entries.len() - 1 {
                assert(pre[i] == entries[i]);
                assert(pre[i].0@ == l);
                assert(label_map_of(pre).contains_key(l));
            }
        }
        if label_keys_distinct(entries) {
            assert(label_keys_distinct(pre));
            assert forall|i: int| 0 <= i < entries.len() implies #[trigger] label_map_of(
                entries,
            )[entries[i].0@] == entries[i].1@ by {
                if i < entries.len() - 1 {
                    assert(entries[i].0@ != entries.last().0@);
                    assert(pre[i] == entries[i]);
                    assert(label_map_of(pre)[pre[i].0@] == pre[i].1@);
                }
            }
        }
    }
}

/// Updating one entry's references, keeping its key, updates the map at
/// that key.
proof fn lemma_label_map_of_update(
    entries: Seq<(QueueLabel, Vec<QueueRef>)>,
    i: int,
    e: (QueueLabel, Vec<QueueRef>),
)
    requires
        label_keys_distinct(entries),
        0 <= i < entries.len(),
        e.0@ == entries[i].0@,
    ensures
        label_map_of(entries.update(i, e)) == label_map_of(entries).insert(e.0@, e.1@),
    decreases entries.len(),
{
    lemma_label_map_of(entries);
    lemma_label_map_of(entries.update(i, e));
    assert(label_keys_distinct(entries.update(i, e)));
    assert forall|l: LabelV|
        label_map_of(entries.update(i, e)).contains_key(l) <==> label_map_of(entries).insert(
            e.0@,
            e.1@,
        ).contains_key(l) by {
        if l == e.0@ {
            assert(entries.update(i, e)[i].0@ == l);
        } else {
            assert forall|j: int|
                0 <= j < entries.len() implies (entries.update(i, e)[j].0@ == l <==> entries[j].0@
                == l) by {}
        }
    }
    assert forall|l: LabelV| label_map_of(entries.update(i, e)).contains_key(l) implies label_map_of(
        entries.update(i, e),
    )[l] == label_map_of(entries).insert(e.0@, e.1@)[l] by {
        let u = entries.update(i, e);
        let j = choose|j: int| 0 <= j < u.len() && u[j].0@ == l;
        assert(label_map_of(u)[u[j].0@] == u[j].1@);
        if l == e.0@ {
            assert(u[i].0@ == l);
            assert(j == i);
        } else {
            assert(j != i);
            assert(entries[j].0@ == l);
            assert(label_map_of(entries)[entries[j].0@] == entries[j].1@);
        }
    }
    assert(label_map_of(entries.update(i, e)) =~= label_map_of(entries).insert(e.0@, e.1@));
}

/// The label-to-queues mapping allocation produces: each label a family of
/// queues was allocated for, with its ordered queue references.
#[derive(Debug)]
pub struct QueueLabels {
    entries: Vec<(QueueLabel, Vec<QueueRef>)>,
}

impl View for QueueLabels {
    type V = Map<LabelV, Seq<QueueRef>>;

    closed spec fn view(&self) -> Map<LabelV, Seq<QueueRef>> {
        label_map_of(self.entries@)
    }
}

impl QueueLabels {
    /// The structural soundness of the mapping: constructors establish it
    /// and methods keep it.
    pub closed spec fn wf(&self) -> bool {
        label_keys_distinct(self.entries@)
    }

    /// An empty mapping.
    pub fn new() -> (r: QueueLabels)
        ensures
            r@ == Map::<LabelV, Seq<QueueRef>>::empty(),
            r.wf(),
    {
        QueueLabels { entries: Vec::new() }
    }

    /// The queue references allocated under `label`, in allocation order,
    /// or `None` where no queue carries the label.
    pub fn get(&self, label: &QueueLabel) -> (r: Option<&Vec<QueueRef>>)
        requires
            self.wf(),
        ensures
            match r {
                Some(v) => self@.contains_key(label@) && v@ == self@[label@],
                None => !self@.contains_key(label@),
            },
    {
        proof {
            lemma_label_map_of(self.entries@);
        }
        let mut i: usize = 0;
        while i < self.entries.len()
            invariant
                i <= self.entries@.len(),
                forall|j: int| 0 <= j < i ==> self.entries@[j].0@ != label@,
                label_keys_distinct(self.entries@),
                forall|l: LabelV| #[trigger] label_map_of(self.entries@).contains_key(l)
                    <==> exists|j: int| 0 <= j < self.entries@.len() && self.entries@[j].0@ == l,
                forall|j: int| 0 <= j < self.entries@.len() ==> #[trigger] label_map_of(
                    self.entries@,
                )[self.entries@[j].0@] == self.entries@[j].1@,
            decreases self.entries@.len() - i,
        {
            if self.entries[i].0 == *label {
                return Some(&self.entries[i].1);
            }
            i = i + 1;
        }
        None
    }

    /// The first queue reference allocated under `label`, if any queue
    /// carries it.
    pub fn first_ref(&self, label: &QueueLabel) -> (r: Option<QueueRef>)
        requires
            self.wf(),
        ensures
            match r {
                Some(q) => {
                    &&& self@.contains_key(label@)
                    &&& self@[label@].len() > 0
                    &&& q == self@[label@][0]
                },
                None => !self@.contains_key(label@) || self@[label@].len() == 0,
            },
    {
        match self.get(label) {
            Some(v) => {
                if v.len() > 0 {
                    Some(v[0])
                } else {
                    None
                }
            },
            None => None,
        }
    }

    /// Appends `refs` to the references of `label`, making `label` a key if
    /// it was none.
    pub fn append(&mut self, label: &QueueLabel, refs: Vec<QueueRef>)
        requires
            old(self).wf(),
            refs@.len() > 0,
        ensures
            final(self).wf(),
            final(self)@ == old(self)@.insert(
                label@,
                refs_or_empty(old(self)@, label@) + refs@,
            ),
    {
        proof {
            lemma_label_map_of(self.entries@);
        }
        let ghost entries0 = self.entries@;
        let mut i: usize = 0;
        let mut found: bool = false;
        while i < self.entries.len() && !found
            invariant
                i <= self.entries@.len(),
                self.entries@ == entries0,
                found ==> i < self.entries@.len() && self.entries@[i as int].0@ == label@,
                !found ==> forall|j: int| 0 <= j < i ==> self.entries@[j].0@ != label@,
            decreases self.entries@.len() - i, (if found { 0int } else { 1int }),
        {
            if self.entries[i].0 == *label {
                found = true;
            } else {
                i = i + 1;
            }
        }
        if found {
            let ghost oldrefs = self.entries@[i as int].1@;
            let mut refs = refs;
            self.entries[i].1.append(&mut refs);
            proof {
                assert(self.entries@ =~= entries0.update(
                    i as int,
                    (entries0[i as int].0, self.entries@[i as int].1),
                ));
                lemma_label_map_of_update(
                    entries0,
                    i as int,
                    (entries0[i as int].0, self.entries[i as int].1),
                );
                assert(label_map_of(entries0)[entries0[i as int].0@] == oldrefs);
            }
        } else {
            let cl = label.clone();
            self.entries.push((cl, refs));
            proof {
                assert(self.entries@.drop_last() =~= entries0);
                assert(forall|j: int|
                    0 <= j < entries0.len() ==> self.entries@[j].0@ != label@);
                assert(!label_map_of(entries0).contains_key(label@));
            }
        }
    }
}

spec fn fam_map_of(entries: Seq<(u32, Vec<u32>)>) -> Map<u32, Set<u32>>
    decreases entries.len(),
{
    if entries.len() == 0 {
        Map::empty()
    } else {
        fam_map_of(entries.drop_last()).insert(entries.last().0, entries.last().1@.to_set())
    }
}

spec fn fam_keys_distinct(entries: Seq<(u32, Vec<u32>)>) -> bool {
    forall|i: int, j: int| 0 <= i < j < entries.len() ==> entries[i].0 != entries[j].0
}

proof fn lemma_fam_map_of(entries: Seq<(u32, Vec<u32>)>)
    ensures
        forall|f: u32| #[trigger] fam_map_of(entries).contains_key(f) <==> exists|i: int|
            0 <= i < entries.len() && entries[i].0 == f,
        fam_keys_distinct(entries) ==> forall|i: int|
            0 <= i < entries.len() ==> #[trigger] fam_map_of(entries)[entries[i].0]
                == entries[i].1@.to_set(),
    decreases entries.len(),
{
    if entries.len() > 0 {
        let pre = entries.drop_last();
        lemma_fam_map_of(pre);
        assert forall|f: u32| #[trigger] fam_map_of(entries).contains_key(f) implies exists|i: int|
            0 <= i < entries.len() && entries[i].0 == f by {
            if f == entries.last().0 {
                assert(entries[entries.len() - 1].0 == f);
            } else {
                assert(fam_map_of(pre).contains_key(f));
                let i = choose|i: int| 0 <= i < pre.len() && pre[i].0 == f;
                assert(pre[i] == entries[i]);
                assert(entries[i].0 == f);
            }
        }
        assert forall|f: u32|
            (exists|i: int| 0 <= i < entries.len() && entries[i].0 == f) implies #[trigger]
            fam_map_of(entries).contains_key(f) by {
            let i = choose|i: int| 0 <= i < entries.len() && entries[i].0 == f;
            if i < entries.len() - 1 {
                assert(pre[i] == entries[i]);
                assert(pre[i].0 == f);
                assert(fam_map_of(pre).contains_key(f));
            }
        }
        if fam_keys_distinct(entries) {
            assert(fam_keys_distinct(pre));
            assert forall|i: int| 0 <= i < entries.len() implies #[trigger] fam_map_of(
                entries,
            )[entries[i].0] == entries[i].1@.to_set() by {
                if i < entries.len() - 1 {
                    assert(entries[i].0 != entries.last().0);
                    assert(pre[i] == entries[i]);
                    assert(fam_map_of(pre)[pre[i].0] == pre[i].1@.to_set());
                }
            }
        }
    }
}

proof fn lemma_fam_map_of_update(entries: Seq<(u32, Vec<u32>)>, i: int, e: (u32, Vec<u32>))
    requires
        fam_keys_distinct(entries),
        0 <= i < entries.len(),
        e.0 == entries[i].0,
    ensures
        fam_map_of(entries.update(i, e)) == fam_map_of(entries).insert(e.0, e.1@.to_set()),
{
    lemma_fam_map_of(entries);
    lemma_fam_map_of(entries.update(i, e));
    assert(fam_keys_distinct(entries.update(i, e)));
    let u = entries.update(i, e);
    assert forall|f: u32|
        fam_map_of(u).contains_key(f) <==> fam_map_of(entries).insert(
            e.0,
            e.1@.to_set(),
        ).contains_key(f) by {
        if f == e.0 {
            assert(u[i].0 == f);
        } else {
            assert forall|j: int|
                0 <= j < entries.len() implies (u[j].0 == f <==> entries[j].0 == f) by {}
        }
    }
    assert forall|f: u32| fam_map_of(u).contains_key(f) implies fam_map_of(u)[f] == fam_map_of(
        entries,
    ).insert(e.0, e.1@.to_set())[f] by {
        let j = choose|j: int| 0 <= j < u.len() && u[j].0 == f;
        assert(fam_map_of(u)[u[j].0] == u[j].1@.to_set());
        if f == e.0 {
            assert(j == i);
        } else {
            assert(j != i);
            assert(entries[j].0 == f);
            assert(fam_map_of(entries)[entries[j].0] == entries[j].1@.to_set());
        }
    }
    assert(fam_map_of(u) =~= fam_map_of(entries).insert(e.0, e.1@.to_set()));
}

/// The family-to-indices mapping of allocated queue slots that no label
/// claimed: each family with unlabeled queues, with the set of their
/// indices.
#[derive(Debug)]
pub struct UnlabeledQueues {
    entries: Vec<(u32, Vec<u32>)>,
}

impl View for UnlabeledQueues {
    type V = Map<u32, Set<u32>>;

    closed spec fn view(&self) -> Map<u32, Set<u32>> {
        fam_map_of(self.entries@)
    }
}

impl UnlabeledQueues {
    /// The structural soundness of the mapping: constructors establish it
    /// and methods keep it.
    pub closed spec fn wf(&self) -> bool {
        fam_keys_distinct(self.entries@) && forall|i: int|
            0 <= i < self.entries@.len() ==> no_dup(#[trigger] self.entries@[i].1@)
    }

    /// An empty mapping.
    pub fn new() -> (r: UnlabeledQueues)
        ensures
            r@ == Map::<u32, Set<u32>>::empty(),
            r.wf(),
    {
        UnlabeledQueues { entries: Vec::new() }
    }

    /// The unlabeled queue indices of `family`, each once, or `None` where
    /// the family has none.
    pub fn get(&self, family: u32) -> (r: Option<&Vec<u32>>)
        requires
            self.wf(),
        ensures
            match r {
                Some(v) => self@.contains_key(family) && v@.to_set() == self@[family] && no_dup(
                    v@,
                ),
                None => !self@.contains_key(family),
            },
    {
        proof {
            lemma_fam_map_of(self.entries@);
        }
        let mut i: usize = 0;
        while i < self.entries.len()
            invariant
                i <= self.entries@.len(),
                forall|j: int| 0 <= j < i ==> self.entries@[j].0 != family,
                fam_keys_distinct(self.entries@),
                forall|i: int| 0 <= i < self.entries@.len() ==> no_dup(
                    #[trigger] self.entries@[i].1@,
                ),
                forall|f: u32| #[trigger] fam_map_of(self.entries@).contains_key(f) <==> exists|
                    j: int,
                | 0 <= j < self.entries@.len() && self.entries@[j].0 == f,
                forall|j: int| 0 <= j < self.entries@.len() ==> #[trigger] fam_map_of(
                    self.entries@,
                )[self.entries@[j].0] == self.entries@[j].1@.to_set(),
            decreases self.entries@.len() - i,
        {
            if self.entries[i].0 == family {
                return Some(&self.entries[i].1);
            }
            i = i + 1;
        }
        None
    }

    /// Adds `indices` to the unlabeled indices of `family`, making the
    /// family a key if it was none; repeated indices collapse.
    pub fn add_indices(&mut self, family: u32, indices: &Vec<u32>)
        requires
            old(self).wf(),
            indices@.len() > 0,
        ensures
            final(self).wf(),
            final(self)@ == old(self)@.insert(
                family,
                indices_or_empty(old(self)@, family) + indices@.to_set(),
            ),
    {
        proof {
            lemma_fam_map_of(self.entries@);
        }
        let ghost entries0 = self.entries@;
        let mut i: usize = 0;
        let mut found: bool = false;
        while i < self.entries.len() && !found
            invariant
                i <= self.entries@.len(),
                self.entries@ == entries0,
                found ==> i < self.entries@.len() && self.entries@[i as int].0 == family,
                !found ==> forall|j: int| 0 <= j < i ==> self.entries@[j].0 != family,
            decreases self.entries@.len() - i, (if found { 0int } else { 1int }),
        {
            if self.entries[i].0 == family {
                found = true;
            } else {
                i = i + 1;
            }
        }
        let ghost old_set = indices_or_empty(fam_map_of(entries0), family);
        if !found {
            self.entries.push((family, Vec::new()));
            i = self.entries.len() - 1;
            proof {
                assert(self.entries@.drop_last() =~= entries0);
                assert(!fam_map_of(entries0).contains_key(family));
                assert(Seq::<u32>::empty().to_set() =~= Set::<u32>::empty());
                assert(fam_map_of(self.entries@) == fam_map_of(entries0).insert(
                    family,
                    Set::<u32>::empty(),
                ));
                assert(fam_keys_distinct(self.entries@));
            }
        } else {
            proof {
                assert(fam_map_of(entries0)[self.entries@[i as int].0]
                    == self.entries@[i as int].1@.to_set());
                assert(fam_map_of(self.entries@).insert(
                    family,
                    self.entries@[i as int].1@.to_set(),
                ) =~= fam_map_of(self.entries@));
            }
        }
        let ghost mid = self.entries@;
        // here: entries[i].0 == family, map == old.insert(family, entries[i].1@.to_set()),
        // and entries[i].1@.to_set() == old_set
        let mut t: usize = 0;
        while t < indices.len()
            invariant
                t <= indices@.len(),
                0 <= i < self.entries@.len(),
                self.entries@[i as int].0 == family,
                fam_keys_distinct(self.entries@),
                forall|k: int| 0 <= k < self.entries@.len() ==> no_dup(
                    #[trigger] self.entries@[k].1@,
                ),
                forall|k: int| 0 <= k < self.entries@.len() && k != i ==> self.entries@[k]
                    == mid[k],
                self.entries@.len() == mid.len(),
                self.entries@[i as int].1@.to_set() =~= old_set + indices@.take(t as int).to_set(),
                fam_map_of(self.entries@) == fam_map_of(entries0).insert(
                    family,
                    self.entries@[i as int].1@.to_set(),
                ),
            decreases indices@.len() - t,
        {
            let ghost pre_entries = self.entries@;
            let ghost pre_vec = self.entries@[i as int].1@;
            let x = indices[t];
            let mut present: bool = false;
            let mut s: usize = 0;
            while s < self.entries[i].1.len() && !present
                invariant
                    0 <= i < self.entries@.len(),
                    self.entries@ == pre_entries,
                    pre_vec == pre_entries[i as int].1@,
                    s <= pre_vec.len(),
                    present ==> pre_vec.contains(x),
                    !present ==> forall|k: int| 0 <= k < s ==> pre_vec[k] != x,
                decreases pre_vec.len() - s, (if present { 0int } else { 1int }),
            {
                if self.entries[i].1[s] == x {
                    present = true;
                } else {
                    s = s + 1;
                }
            }
            if !present {
                self.entries[i].1.push(x);
                proof {
                    assert(self.entries@ =~= pre_entries.update(
                        i as int,
                        (family, self.entries[i as int].1),
                    ));
                    assert(self.entries@[i as int].1@ =~= pre_vec.push(x));
                    lemma_push_to_set(pre_vec, x);
                    lemma_fam_map_of_update(
                        pre_entries,
                        i as int,
                        (family, self.entries[i as int].1),
                    );
                    assert(fam_map_of(entries0).insert(
                        family,
                        self.entries@[i as int].1@.to_set(),
                    ) =~= fam_map_of(pre_entries).insert(
                        family,
                        self.entries@[i as int].1@.to_set(),
                    ));
                }
            } else {
                proof {
                    assert(pre_vec.to_set().insert(x) =~= pre_vec.to_set());
                }
            }
            proof {
                assert(indices@.take(t as int + 1) =~= indices@.take(t as int).push(x));
                lemma_push_to_set(indices@.take(t as int), x);
                assert(self.entries@[i as int].1@.to_set() =~= old_set + indices@.take(
                    t as int + 1,
                ).to_set());
            }
            t = t + 1;
        }
        proof {
            assert(indices@.take(indices@.len() as int) =~= indices@);
            assert(final(self)@ == fam_map_of(entries0).insert(
                family,
                old_set + indices@.to_set(),
            ));
        }
    }
}

} // verus!
