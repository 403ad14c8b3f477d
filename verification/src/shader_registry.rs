//! Numbering of shaders by label, so that a shader can report errors by a
//! number and the host can name the shader again.
use vstd::prelude::*;

verus! {

/// Whether two labels have the same characters.
pub(crate) fn same_label(a: &str, b: &str) -> (r: bool)
    ensures
        r == (a@ == b@),
{
    let n = a.unicode_len();
    if n != b.unicode_len() {
        return false;
    }
    for i in 0..n
        invariant
            n == a@.len(),
            n == b@.len(),
            forall|j: int| 0 <= j < i ==> a@[j] == b@[j],
    {
        if a.get_char(i) != b.get_char(i) {
            return false;
        }
    }
    assert(a@ =~= b@);
    true
}

/// Shader ids handed out so far, and the next id to hand out.
pub struct ShaderRegistry {
    next_shader_id: u32,
    entries: Vec<(&'static str, u32)>,
}

/// The registered labels and their ids, as character sequences.
pub open spec fn entries_view(entries: Seq<(&'static str, u32)>) -> Seq<(Seq<char>, u32)> {
    entries.map_values(|e: (&'static str, u32)| (e.0@, e.1))
}

/// `after` is `before` once `label` was asked for and `id` handed out: the
/// label keeps its id, or a new label gets the next id.
pub open spec fn registration(before: ShaderRegistry, after: ShaderRegistry, label: Seq<char>, id: u32) -> bool {
    match before.id_of(label) {
        Some(old_id) => id == old_id && after.registered() == before.registered(),
        None => id == before.next_id() && after.registered() == before.registered().push((label, id)),
    }
}

/// Once a label has been given an id, the registry names the label by that
/// id and gives the label that id, and no other label or id changes.
pub proof fn lemma_registration_round_trip(before: ShaderRegistry, after: ShaderRegistry, label: Seq<char>, id: u32)
    requires
        before.wf(),
        after.wf(),
        registration(before, after, label, id),
    ensures
        after.id_of(label) == Some(id),
        after.label_of(id) == Some(label),
        forall|other: Seq<char>| other != label ==> after.id_of(other) == before.id_of(other),
{
    let rb = before.registered();
    let ra = after.registered();
    if before.id_of(label) is None {
        let n = rb.len() as int;
        assert(ra[n] == (label, id));
        let k = choose|k: int| 0 <= k < ra.len() && (#[trigger] ra[k]).0 == label;
        assert(k == n) by {
            if k != n {
                assert(ra[k] == rb[k]);
            }
        }
        let m = choose|m: int| 0 <= m < ra.len() && (#[trigger] ra[m]).1 == id;
        assert(m == n) by {
            if m != n {
                assert(ra[m] == rb[m]);
            }
        }
        assert forall|other: Seq<char>| other != label implies after.id_of(other) == before.id_of(other) by {
            if exists|i: int| 0 <= i < ra.len() && (#[trigger] ra[i]).0 == other {
                let i = choose|i: int| 0 <= i < ra.len() && (#[trigger] ra[i]).0 == other;
                assert(i < n);
                assert(rb[i] == ra[i]);
                let j = choose|j: int| 0 <= j < rb.len() && (#[trigger] rb[j]).0 == other;
                assert(j == i) by {
                    if j != i {
                        assert(ra[j] == rb[j]);
                    }
                }
            } else {
                assert forall|i: int| 0 <= i < rb.len() implies (#[trigger] rb[i]).0 != other by {
                    assert(ra[i] == rb[i]);
                }
            }
        }
    } else {
        let k = choose|k: int| 0 <= k < rb.len() && (#[trigger] rb[k]).0 == label;
        let m = choose|m: int| 0 <= m < ra.len() && (#[trigger] ra[m]).1 == id;
        assert(ra[k].1 == id);
        assert(m == k) by {
            if m != k {
                if m < k {
                    assert(ra[m].1 != ra[k].1);
                } else {
                    assert(ra[k].1 != ra[m].1);
                }
            }
        }
    }
}

/// `regs[i + 1]` is `regs[i]` after asking for the id of `labels[i]`, which
/// was answered with `ids[i]`.
pub open spec fn history(regs: Seq<ShaderRegistry>, labels: Seq<Seq<char>>, ids: Seq<u32>) -> bool {
    &&& regs.len() == labels.len() + 1
    &&& ids.len() == labels.len()
    &&& forall|i: int| 0 <= i < regs.len() ==> (#[trigger] regs[i]).wf()
    &&& forall|i: int| #![trigger ids[i]] 0 <= i < labels.len() ==> registration(regs[i], regs[i + 1], labels[i], ids[i])
}

proof fn lemma_history_upto(regs: Seq<ShaderRegistry>, labels: Seq<Seq<char>>, ids: Seq<u32>, m: int)
    requires
        history(regs, labels, ids),
        0 <= m <= labels.len(),
    ensures
        forall|i: int| 0 <= i < m ==> regs[m].id_of(#[trigger] labels[i]) == Some(ids[i]),
        forall|i: int| 0 <= i < m ==> #[trigger] ids[i] >= 1,
        regs[0].registered().len() == 0 ==> forall|e: int|
            0 <= e < regs[m].registered().len() ==> exists|i: int|
                0 <= i < m && #[trigger] regs[m].registered()[e] == (labels[i], ids[i]),
    decreases m,
{
    if m > 0 {
        lemma_history_upto(regs, labels, ids, m - 1);
        let before = regs[m - 1];
        let after = regs[m];
        let l = labels[m - 1];
        let id = ids[m - 1];
        assert(registration(before, after, l, id));
        assert(before.wf() && after.wf());
        lemma_registration_round_trip(before, after, l, id);
        assert forall|i: int| 0 <= i < m implies after.id_of(#[trigger] labels[i]) == Some(ids[i]) by {
            if i < m - 1 && labels[i] == l {
                assert(before.id_of(l) == Some(ids[i]));
            }
        }
        if before.id_of(l) matches Some(old_id) {
            let k = choose|k: int| 0 <= k < before.registered().len() && (#[trigger] before.registered()[k]).0 == l;
            assert(before.registered()[k].1 >= 1);
        }
        if regs[0].registered().len() == 0 {
            assert forall|e: int| 0 <= e < after.registered().len() implies exists|i: int|
                0 <= i < m && #[trigger] after.registered()[e] == (labels[i], ids[i]) by {
                if e < before.registered().len() {
                    assert(after.registered()[e] == before.registered()[e]);
                    let i = choose|i: int| 0 <= i < m - 1 && #[trigger] before.registered()[e] == (labels[i], ids[i]);
                    assert(after.registered()[e] == (labels[i], ids[i]));
                } else {
                    assert(after.registered()[e] == (labels[m - 1], ids[m - 1]));
                }
            }
        }
    }
}

/// Over any sequence of requests, every id handed out is at least 1, one
/// label always gets one id and different labels never share one, and the
/// registry names every label by its id. Starting from an empty registry,
/// no id that was never handed out names a label.
pub proof fn lemma_shader_ids(regs: Seq<ShaderRegistry>, labels: Seq<Seq<char>>, ids: Seq<u32>)
    requires
        history(regs, labels, ids),
    ensures
        forall|i: int| 0 <= i < ids.len() ==> #[trigger] ids[i] >= 1,
        forall|i: int, j: int|
            0 <= i < ids.len() && 0 <= j < ids.len() ==> (#[trigger] ids[i] == #[trigger] ids[j] <==> labels[i] == labels[j]),
        forall|i: int| 0 <= i < ids.len() ==> regs.last().label_of(#[trigger] ids[i]) == Some(labels[i]),
        regs[0].registered().len() == 0 ==> forall|k: u32|
            (forall|i: int| 0 <= i < ids.len() ==> #[trigger] ids[i] != k) ==> regs.last().label_of(k) is None,
{
    let n = labels.len() as int;
    lemma_history_upto(regs, labels, ids, n);
    let last = regs.last();
    assert(last == regs[n]);
    assert(last.wf());
    let r = last.registered();
    assert forall|i: int| 0 <= i < ids.len() implies last.label_of(#[trigger] ids[i]) == Some(labels[i]) by {
        assert(last.id_of(labels[i]) == Some(ids[i]));
        let a = choose|a: int| 0 <= a < r.len() && (#[trigger] r[a]).0 == labels[i];
        let b = choose|b: int| 0 <= b < r.len() && (#[trigger] r[b]).1 == ids[i];
        assert(a == b) by {
            if a < b {
                assert(r[a].1 != r[b].1);
            } else if b < a {
                assert(r[b].1 != r[a].1);
            }
        }
    }
    assert forall|i: int, j: int| 0 <= i < ids.len() && 0 <= j < ids.len() implies (#[trigger] ids[i] == #[trigger] ids[j]
        <==> labels[i] == labels[j]) by {
        assert(last.id_of(labels[i]) == Some(ids[i]));
        assert(last.id_of(labels[j]) == Some(ids[j]));
        assert(last.label_of(ids[i]) == Some(labels[i]));
        assert(last.label_of(ids[j]) == Some(labels[j]));
    }
    if regs[0].registered().len() == 0 {
        assert forall|k: u32| (forall|i: int| 0 <= i < ids.len() ==> #[trigger] ids[i] != k) implies last.label_of(
            k,
        ) is None by {
            if exists|e: int| 0 <= e < r.len() && (#[trigger] r[e]).1 == k {
                let e = choose|e: int| 0 <= e < r.len() && (#[trigger] r[e]).1 == k;
                let i = choose|i: int| 0 <= i < n && #[trigger] r[e] == (labels[i], ids[i]);
                assert(ids[i] != k);
            }
        }
    }
}

impl ShaderRegistry {
    /// The registered labels with their ids, in registration order.
    pub closed spec fn registered(&self) -> Seq<(Seq<char>, u32)> {
        entries_view(self.entries@)
    }

    /// The id the next new label gets.
    pub closed spec fn next_id(&self) -> int {
        self.next_shader_id as int
    }

    /// Labels are registered once, ids are distinct, at least 1 and below
    /// the next id.
    pub open spec fn wf(&self) -> bool {
        let r = self.registered();
        &&& forall|i: int, j: int| 0 <= i < j < r.len() ==> (#[trigger] r[i]).0 != (#[trigger] r[j]).0
        &&& forall|i: int, j: int| 0 <= i < j < r.len() ==> (#[trigger] r[i]).1 != (#[trigger] r[j]).1
        &&& forall|i: int| 0 <= i < r.len() ==> 1 <= (#[trigger] r[i]).1 < self.next_id()
        &&& self.next_id() >= 1
    }

    /// The id of `label`, if it is registered.
    pub open spec fn id_of(&self, label: Seq<char>) -> Option<u32> {
        if exists|i: int| 0 <= i < self.registered().len() && (#[trigger] self.registered()[i]).0 == label {
            let i = choose|i: int| 0 <= i < self.registered().len() && (#[trigger] self.registered()[i]).0 == label;
            Some(self.registered()[i].1)
        } else {
            None
        }
    }

    /// The label registered with `id`, if any.
    pub open spec fn label_of(&self, id: u32) -> Option<Seq<char>> {
        if exists|i: int| 0 <= i < self.registered().len() && (#[trigger] self.registered()[i]).1 == id {
            let i = choose|i: int| 0 <= i < self.registered().len() && (#[trigger] self.registered()[i]).1 == id;
            Some(self.registered()[i].0)
        } else {
            None
        }
    }

    /// The id the next new label gets.
    pub fn next_shader_id(&self) -> (r: u32)
        ensures
            r == self.next_id(),
    {
        self.next_shader_id
    }

    /// An empty registry whose first id is 1.
    pub fn new() -> (r: Self)
        ensures
            r.wf(),
            r.registered().len() == 0,
            r.next_id() == 1,
    {
        let r = ShaderRegistry { next_shader_id: 1, entries: Vec::new() };
        assert(r.registered() =~= seq![]);
        r
    }

    /// The id of `label`; a label seen for the first time gets the next id.
    /// Every call moves the next id on by one.
    pub fn get_shader_id(&mut self, label: &'static str) -> (r: u32)
        requires
            old(self).wf(),
            old(self).next_id() < u32::MAX,
        ensures
            final(self).wf(),
            final(self).next_id() == old(self).next_id() + 1,
            registration(*old(self), *final(self), label@, r),
            r >= 1,
    {
        let ghost reg = self.registered();
        let n = self.entries.len();
        let mut i: usize = 0;
        while i < n
            invariant
                n == self.entries.len(),
                reg == self.registered(),
                self.wf(),
                self.next_id() < u32::MAX,
                self.registered() == old(self).registered(),
                self.next_id() == old(self).next_id(),
                i <= n,
                forall|j: int| 0 <= j < i ==> (#[trigger] reg[j]).0 != label@,
            decreases n - i,
        {
            assert(reg[i as int] == (self.entries@[i as int].0@, self.entries@[i as int].1));
            if same_label(self.entries[i].0, label) {
                let id = self.entries[i].1;
                proof {
                    assert(reg[i as int].0 == label@);
                    let k = choose|k: int| 0 <= k < reg.len() && (#[trigger] reg[k]).0 == label@;
                    assert(k == i) by {
                        if k != i {
                            if k < i {
                                assert(reg[k].0 != reg[i as int].0);
                            } else {
                                assert(reg[i as int].0 != reg[k].0);
                            }
                        }
                    }
                }
                self.next_shader_id = self.next_shader_id + 1;
                return id;
            }
            i = i + 1;
        }
        let id = self.next_shader_id;
        self.entries.push((label, id));
        self.next_shader_id = self.next_shader_id + 1;
        assert(self.registered() =~= reg.push((label@, id)));
        id
    }

    /// The label registered with `id`, if any.
    pub fn get_shader_label(&self, id: u32) -> (r: Option<&'static str>)
        requires
            self.wf(),
        ensures
            match self.label_of(id) {
                Some(l) => r matches Some(s) && s@ == l,
                None => r is None,
            },
    {
        let ghost reg = self.registered();
        let n = self.entries.len();
        let mut i: usize = 0;
        while i < n
            invariant
                n == self.entries.len(),
                reg == self.registered(),
                self.wf(),
                i <= n,
                forall|j: int| 0 <= j < i ==> (#[trigger] reg[j]).1 != id,
            decreases n - i,
        {
            assert(reg[i as int] == (self.entries@[i as int].0@, self.entries@[i as int].1));
            if self.entries[i].1 == id {
                proof {
                    let k = choose|k: int| 0 <= k < reg.len() && (#[trigger] reg[k]).1 == id;
                    assert(k == i) by {
                        if k != i {
                            if k < i {
                                assert(reg[k].1 != reg[i as int].1);
                            } else {
                                assert(reg[i as int].1 != reg[k].1);
                            }
                        }
                    }
                }
                return Some(self.entries[i].0);
            }
            i = i + 1;
        }
        None
    }
}

} // verus!
