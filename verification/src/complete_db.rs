use vstd::prelude::*;

use crate::text::{same_text, views};

verus! {

/// The completer scripts registered with `complete -C`, by command name.
/// A name keeps every script registered for it, first one first; the first
/// one is the one that runs.
pub struct CompleteDb {
    entries: Vec<(String, Vec<String>)>,
}

impl CompleteDb {
    /// Whether some entry is for `name`.
    pub closed spec fn has(self, name: Seq<char>) -> bool {
        exists|i: int| 0 <= i < self.entries@.len() && (#[trigger] self.entries@[i]).0@ == name
    }

    /// The position of an entry for `name`.
    pub closed spec fn slot(self, name: Seq<char>) -> int {
        choose|i: int| 0 <= i < self.entries@.len() && (#[trigger] self.entries@[i]).0@ == name
    }

    /// Every name has at most one entry, and every entry at least one
    /// script.
    #[verifier::type_invariant]
    spec fn wf(self) -> bool {
        &&& forall|i: int, j: int|
            0 <= i < self.entries@.len() && 0 <= j < self.entries@.len() && i != j
                ==> #[trigger] self.entries@[i].0@ != #[trigger] self.entries@[j].0@
        &&& forall|i: int|
            0 <= i < self.entries@.len() ==> (#[trigger] self.entries@[i]).1@.len() > 0
    }

    proof fn lemma_slot_unique(self, i: int)
        requires
            self.wf(),
            0 <= i < self.entries@.len(),
        ensures
            self.has(self.entries@[i].0@),
            self.slot(self.entries@[i].0@) == i,
    {
        let name = self.entries@[i].0@;
        assert(self.has(name));
        let j = self.slot(name);
        assert(self.entries@[j].0@ == name);
    }

    /// Where `name` has an entry, its position.
    fn position(&self, name: &str) -> (r: Option<usize>)
        ensures
            r matches Some(i) ==> i < self.entries@.len() && self.entries@[i as int].0@ == name@
                && self.slot(name@) == i,
            r is None ==> !self.has(name@),
    {
        proof {
            use_type_invariant(self);
        }
        let n = self.entries.len();
        for i in 0..n
            invariant
                n == self.entries@.len(),
                self.wf(),
                forall|j: int| 0 <= j < i ==> (#[trigger] self.entries@[j]).0@ != name@,
        {
            if same_text(self.entries[i].0.as_str(), name) {
                proof {
                    self.lemma_slot_unique(i as int);
                }
                return Some(i);
            }
        }
        None
    }
}

/// The registrations `m` with `script` registered for `name` after any
/// scripts registered for it before.
pub open spec fn with_script(
    m: Map<Seq<char>, Seq<Seq<char>>>,
    name: Seq<char>,
    script: Seq<char>,
) -> Map<Seq<char>, Seq<Seq<char>>> {
    m.insert(
        name,
        if m.contains_key(name) {
            m[name].push(script)
        } else {
            seq![script]
        },
    )
}

/// The script that runs for a name is the first one registered for it: a
/// later registration leaves it in place.
pub proof fn law_first_script_runs(
    m: Map<Seq<char>, Seq<Seq<char>>>,
    name: Seq<char>,
    script: Seq<char>,
)
    requires
        m.contains_key(name) ==> m[name].len() > 0,
    ensures
        with_script(m, name, script).contains_key(name),
        with_script(m, name, script)[name][0] == if m.contains_key(name) {
            m[name][0]
        } else {
            script
        },
{
}

impl View for CompleteDb {
    type V = Map<Seq<char>, Seq<Seq<char>>>;

    /// Each registered name with its scripts, first registered first.
    closed spec fn view(&self) -> Map<Seq<char>, Seq<Seq<char>>> {
        Map::new(
            |name: Seq<char>| self.has(name),
            |name: Seq<char>| views(self.entries@[self.slot(name)].1@),
        )
    }
}

impl CompleteDb {
    /// No scripts registered.
    pub fn new() -> (r: CompleteDb)
        ensures
            r@ == Map::<Seq<char>, Seq<Seq<char>>>::empty(),
    {
        let r = CompleteDb { entries: Vec::new() };
        assert(r@ =~= Map::<Seq<char>, Seq<Seq<char>>>::empty());
        r
    }

    /// The scripts registered for `name`, if any.
    pub fn get(&self, name: &str) -> (r: Option<&Vec<String>>)
        ensures
            r is Some == self@.contains_key(name@),
            r matches Some(v) ==> views(v@) == self@[name@] && v@.len() > 0,
    {
        proof {
            use_type_invariant(self);
        }
        match self.position(name) {
            Some(i) => Some(&self.entries[i].1),
            None => None,
        }
    }

    /// Registers `script` for `name`, after any registered before it.
    pub fn register(&mut self, name: String, script: String)
        ensures
            final(self)@ == with_script(old(self)@, name@, script@),
    {
        proof {
            use_type_invariant(&*self);
        }
        match self.position(name.as_str()) {
            Some(i) => {
                let mut entries: Vec<(String, Vec<String>)> = Vec::new();
                std::mem::swap(&mut entries, &mut self.entries);
                let (key, mut scripts) = entries.remove(i);
                let ghost before = scripts@;
                scripts.push(script);
                entries.insert(i, (key, scripts));
                assert(entries@ =~= old(self).entries@.update(i as int, (key, scripts)));
                self.entries = entries;
                proof {
                    assert(self.entries@ =~= old(self).entries@.update(
                        i as int,
                        (key, scripts),
                    ));
                    assert(views(scripts@) =~= views(before).push(script@));
                    assert forall|k: Seq<char>| #[trigger] self.has(k) == old(self).has(k) by {
                        if old(self).has(k) {
                            let j = old(self).slot(k);
                            assert(self.entries@[j].0@ == k);
                        }
                        if self.has(k) {
                            let j = self.slot(k);
                            assert(old(self).entries@[j].0@ == k);
                        }
                    }
                    assert forall|k: Seq<char>| #[trigger] self.has(k) implies self.slot(k)
                        == old(self).slot(k) by {
                        let j = old(self).slot(k);
                        old(self).lemma_slot_unique(j);
                        self.lemma_slot_unique(j);
                    }
                    assert(self@ =~= old(self)@.insert(name@, old(self)@[name@].push(script@)));
                }
            },
            None => {
                let ghost n = self.entries@.len() as int;
                let ghost sv = script@;
                let ghost nv = name@;
                let mut scripts: Vec<String> = Vec::new();
                scripts.push(script);
                let mut entries: Vec<(String, Vec<String>)> = Vec::new();
                std::mem::swap(&mut entries, &mut self.entries);
                entries.push((name, scripts));
                self.entries = entries;
                proof {
                    assert(views(scripts@) =~= seq![sv]);
                    self.lemma_slot_unique(n);
                    assert forall|k: Seq<char>| #[trigger] self.has(k) == (old(self).has(k) || k
                        == nv) by {
                        if self.has(k) && k != nv {
                            let j = self.slot(k);
                            assert(old(self).entries@[j].0@ == k);
                        }
                        if old(self).has(k) {
                            let j = old(self).slot(k);
                            assert(self.entries@[j].0@ == k);
                        }
                    }
                    assert forall|k: Seq<char>| #[trigger] old(self).has(k) implies self.slot(k)
                        == old(self).slot(k) by {
                        let j = old(self).slot(k);
                        old(self).lemma_slot_unique(j);
                        self.lemma_slot_unique(j);
                    }
                    assert(self@ =~= old(self)@.insert(nv, seq![sv]));
                }
            },
        }
    }

    /// Forgets every script registered for `name`.
    pub fn remove(&mut self, name: &str)
        ensures
            final(self)@ == old(self)@.remove(name@),
    {
        proof {
            use_type_invariant(&*self);
        }
        match self.position(name) {
            Some(i) => {
                let mut entries: Vec<(String, Vec<String>)> = Vec::new();
                std::mem::swap(&mut entries, &mut self.entries);
                entries.remove(i);
                assert(entries@ =~= old(self).entries@.remove(i as int));
                self.entries = entries;
                proof {
                    let old_e = old(self).entries@;
                    assert(self.entries@ =~= old_e.remove(i as int));
                    assert forall|k: Seq<char>| #[trigger] self.has(k) == (old(self).has(k) && k
                        != name@) by {
                        if self.has(k) {
                            let j = self.slot(k);
                            let oj = if j < i { j } else { j + 1 };
                            assert(old_e[oj].0@ == k);
                            old(self).lemma_slot_unique(i as int);
                            if k == name@ {
                                assert(old_e[i as int].0@ == k);
                            }
                        }
                        if old(self).has(k) && k != name@ {
                            let oj = old(self).slot(k);
                            if oj < i {
                                assert(self.entries@[oj].0@ == k);
                            } else {
                                assert(oj != i);
                                assert(self.entries@[oj - 1].0@ == k);
                            }
                        }
                    }
                    assert forall|k: Seq<char>| #[trigger] self.has(k) implies views(
                        self.entries@[self.slot(k)].1@,
                    ) == views(old_e[old(self).slot(k)].1@) by {
                        let j = self.slot(k);
                        self.lemma_slot_unique(j);
                        let oj = if j < i { j } else { j + 1 };
                        old(self).lemma_slot_unique(oj);
                    }
                    assert(self@ =~= old(self)@.remove(name@));
                }
            },
            None => {
                assert(self@ =~= old(self)@.remove(name@));
            },
        }
    }
}

} // verus!
