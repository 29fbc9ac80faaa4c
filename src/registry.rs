use vstd::prelude::*;

verus! {

/// Bijective map between net names and small integer ids, handed out in
/// order of first registration.
pub struct Registry {
    pub id_to_name: Vec<String>,
}

/// The names of `names` are pairwise distinct.
pub open spec fn distinct_names(names: Seq<Seq<char>>) -> bool {
    forall|i: int, j: int|
        0 <= i < names.len() && 0 <= j < names.len() && i != j ==> #[trigger] names[i]
            != #[trigger] names[j]
}

/// Position of `name` in `names`, if any.
pub open spec fn position_of(names: Seq<Seq<char>>, name: Seq<char>) -> Option<nat> {
    if exists|i: int| 0 <= i < names.len() && names[i] == name {
        Some((choose|i: int| 0 <= i < names.len() && names[i] == name) as nat)
    } else {
        None
    }
}

impl View for Registry {
    type V = Seq<Seq<char>>;

    /// The names by id.
    open spec fn view(&self) -> Seq<Seq<char>> {
        self.id_to_name@.map_values(|s: String| s@)
    }
}

impl Registry {
    pub open spec fn wf(&self) -> bool {
        distinct_names(self@)
    }

    pub fn new() -> (r: Self)
        ensures
            r.wf(),
            r@ == Seq::<Seq<char>>::empty(),
    {
        Registry { id_to_name: Vec::new() }
    }

    fn index_of(&self, name: &String) -> (r: Option<usize>)
        ensures
            match r {
                Some(i) => i < self@.len() && self@[i as int] == name@,
                None => forall|i: int| 0 <= i < self@.len() ==> self@[i] != name@,
            },
    {
        let mut i: usize = 0;
        while i < self.id_to_name.len()
            invariant
                i <= self.id_to_name@.len(),
                forall|k: int| 0 <= k < i ==> self@[k] != name@,
            decreases self.id_to_name@.len() - i,
        {
            if self.id_to_name[i] == *name {
                return Some(i);
            }
            i = i + 1;
        }
        None
    }

    /// Returns the id of `name`, registering it under the next free id when
    /// it is new. Ids already given never change.
    pub fn register(&mut self, name: &str) -> (r: usize)
        requires
            old(self).wf(),
        ensures
            final(self).wf(),
            r < final(self)@.len(),
            final(self)@[r as int] == name@,
            position_of(old(self)@, name@) is Some ==> final(self)@ == old(self)@,
            position_of(old(self)@, name@) is None ==> final(self)@ == old(self)@.push(name@)
                && r == old(self)@.len(),
    {
        let s = name.to_owned();
        match self.index_of(&s) {
            Some(i) => {
                proof {
                    assert(0 <= i < self@.len() && self@[i as int] == name@);
                }
                i
            },
            None => {
                let ghost before = self@;
                let id = self.id_to_name.len();
                self.id_to_name.push(s);
                proof {
                    assert(self@ =~= before.push(name@));
                    assert(!(exists|i: int| 0 <= i < before.len() && before[i] == name@));
                }
                id
            },
        }
    }

    /// Number of registered names.
    pub fn len(&self) -> (r: usize)
        ensures
            r == self@.len(),
    {
        self.id_to_name.len()
    }

    /// The id under which `name` was registered.
    pub fn find_id(&self, name: &str) -> (r: Option<usize>)
        requires
            self.wf(),
        ensures
            r == (match position_of(self@, name@) {
                Some(i) => Some(i as usize),
                None => None,
            }),
    {
        let s = name.to_owned();
        let r = self.index_of(&s);
        proof {
            if let Some(i) = r {
                let j = choose|j: int| 0 <= j < self@.len() && self@[j] == name@;
                assert(self@[j] == self@[i as int]);
            }
        }
        r
    }

    /// The name registered under `id`.
    pub fn find_name(&self, id: usize) -> (r: Option<&str>)
        ensures
            id < self@.len() ==> r is Some && r.unwrap()@ == self@[id as int],
            id >= self@.len() ==> r is None,
    {
        if id < self.id_to_name.len() {
            Some(self.id_to_name[id].as_str())
        } else {
            None
        }
    }
}

/// Names in order of first registration, each once.
pub open spec fn registered(s: Seq<Seq<char>>) -> Seq<Seq<char>>
    decreases s.len(),
{
    if s.len() == 0 {
        Seq::empty()
    } else {
        let r = registered(s.drop_last());
        if position_of(r, s.last()) is Some {
            r
        } else {
            r.push(s.last())
        }
    }
}

/// The names that the components of one layer carry, in order.
pub open spec fn row_names(row: Seq<Option<String>>) -> Seq<Seq<char>>
    decreases row.len(),
{
    if row.len() == 0 {
        Seq::empty()
    } else {
        match row.last() {
            Some(n) => row_names(row.drop_last()).push(n@),
            None => row_names(row.drop_last()),
        }
    }
}

/// The names that the components carry, layer by layer.
pub open spec fn all_names(names: Seq<Vec<Option<String>>>) -> Seq<Seq<char>>
    decreases names.len(),
{
    if names.len() == 0 {
        Seq::empty()
    } else {
        all_names(names.drop_last()) + row_names(names.last()@)
    }
}

/// Registers the unconnected net `N/C` (id 0), then the net of each
/// component, layer by layer, and gives each component its net id.
pub fn register_nets(names: &Vec<Vec<Option<String>>>) -> (r: (Registry, Vec<Vec<usize>>))
    ensures
        r.0.wf(),
        r.0@.len() > 0,
        r.0@[0] == "N/C"@,
        r.0@ == registered(seq!["N/C"@] + all_names(names@)),
        r.1@.len() == names@.len(),
        forall|l: int| 0 <= l < names@.len() ==> (#[trigger] r.1@[l])@.len() == names@[l]@.len(),
        forall|l: int, k: int|
            0 <= l < names@.len() && 0 <= k < names@[l]@.len() ==> (#[trigger] r.1@[l]@[k]) < r.0@.len() && match names@[l]@[k] {
                Some(n) => r.0@[r.1@[l]@[k] as int] == n@,
                None => r.1@[l]@[k] == 0,
            },
{
    let mut reg = Registry::new();
    let sentinel: usize = reg.register("N/C");
    let mut ids: Vec<Vec<usize>> = Vec::new();
    let mut l: usize = 0;
    let ghost nc = "N/C"@;
    proof {
        assert(names@.take(0) =~= Seq::<Vec<Option<String>>>::empty());
        assert(seq![nc] + all_names(names@.take(0)) =~= seq![nc]);
        assert(seq![nc].drop_last() =~= Seq::<Seq<char>>::empty());
        assert(registered(Seq::<Seq<char>>::empty()) == Seq::<Seq<char>>::empty());
        assert(position_of(Seq::<Seq<char>>::empty(), nc) is None);
        assert(registered(seq![nc]) =~= Seq::<Seq<char>>::empty().push(nc));
        assert(reg@ =~= seq![nc]);
        assert(sentinel == 0);
    }
    while l < names.len()
        invariant
            nc == "N/C"@,
            reg.wf(),
            reg@.len() > 0,
            reg@[0] == "N/C"@,
            reg@ == registered(seq![nc] + all_names(names@.take(l as int))),
            l <= names@.len(),
            ids@.len() == l,
            forall|j: int| 0 <= j < l ==> (#[trigger] ids@[j])@.len() == names@[j]@.len(),
            forall|j: int, k: int|
                0 <= j < l && 0 <= k < names@[j]@.len() ==> (#[trigger] ids@[j]@[k]) < reg@.len() && match names@[j]@[k] {
                    Some(n) => reg@[ids@[j]@[k] as int] == n@,
                    None => ids@[j]@[k] == 0,
                },
        decreases names@.len() - l,
    {
        let layer = &names[l];
        let mut row: Vec<usize> = Vec::new();
        let mut k: usize = 0;
        while k < layer.len()
            invariant
                nc == "N/C"@,
                reg.wf(),
                reg@.len() > 0,
                reg@[0] == "N/C"@,
                reg@ == registered(seq![nc] + all_names(names@.take(l as int)) + row_names(layer@.take(k as int))),
                l < names@.len(),
                layer == names@[l as int],
                ids@.len() == l,
                forall|j: int| 0 <= j < l ==> (#[trigger] ids@[j])@.len() == names@[j]@.len(),
                forall|j: int, kk: int|
                    0 <= j < l && 0 <= kk < names@[j]@.len() ==> (#[trigger] ids@[j]@[kk]) < reg@.len() && match names@[j]@[kk] {
                        Some(n) => reg@[ids@[j]@[kk] as int] == n@,
                        None => ids@[j]@[kk] == 0,
                    },
                k <= layer@.len(),
                row@.len() == k,
                forall|kk: int|
                    0 <= kk < k ==> (#[trigger] row@[kk]) < reg@.len() && match layer@[kk] {
                        Some(n) => reg@[row@[kk] as int] == n@,
                        None => row@[kk] == 0,
                    },
            decreases layer@.len() - k,
        {
            let ghost before = reg@;
            let id = match &layer[k] {
                Some(n) => reg.register(n.as_str()),
                None => 0,
            };
            proof {
                assert(before.len() <= reg@.len());
                assert(forall|i: int| 0 <= i < before.len() ==> before[i] == reg@[i]);
                let pre = seq![nc] + all_names(names@.take(l as int));
                let rk = row_names(layer@.take(k as int));
                assert(layer@.take(k + 1).drop_last() =~= layer@.take(k as int));
                assert(layer@.take(k + 1).last() == layer@[k as int]);
                match layer@[k as int] {
                    Some(n) => {
                        assert(pre + rk.push(n@) =~= (pre + rk).push(n@));
                        assert((pre + rk).push(n@).drop_last() =~= pre + rk);
                    },
                    None => {},
                }
            }
            row.push(id);
            k = k + 1;
        }
        ids.push(row);
        proof {
            assert(layer@.take(k as int) =~= layer@);
            assert(names@.take(l + 1).drop_last() =~= names@.take(l as int));
            assert(names@.take(l + 1).last() == names@[l as int]);
            assert(seq![nc] + all_names(names@.take(l as int)) + row_names(layer@) =~= seq![nc] + all_names(names@.take(l + 1)));
        }
        l = l + 1;
    }
    proof {
        assert(names@.take(l as int) =~= names@);
    }
    (reg, ids)
}

} // verus!
