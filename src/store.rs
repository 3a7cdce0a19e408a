//! The variable store: names bound to values, kept in order of name.
use vstd::prelude::*;
use crate::text::{chars_lt, chars_of, lemma_lt_irreflexive, lemma_lt_total, lemma_lt_transitive, seq_lt};

verus! {

/// A variable name: non-empty, without `=`.
pub open spec fn valid_name(k: Seq<char>) -> bool {
    k.len() > 0 && !k.contains('=')
}

/// The names of `e` are strictly increasing.
pub open spec fn sorted_keys(e: Seq<(Seq<char>, Seq<char>)>) -> bool {
    forall|i: int, j: int| 0 <= i < j < e.len() ==> seq_lt(#[trigger] e[i].0, #[trigger] e[j].0)
}

pub open spec fn has_key(e: Seq<(Seq<char>, Seq<char>)>, k: Seq<char>) -> bool {
    exists|i: int| 0 <= i < e.len() && #[trigger] e[i].0 == k
}

/// A position of `e` that holds the name `k`, where there is one.
pub open spec fn key_index(e: Seq<(Seq<char>, Seq<char>)>, k: Seq<char>) -> int {
    choose|i: int| 0 <= i < e.len() && #[trigger] e[i].0 == k
}

/// The bindings that the entries `e` hold.
pub open spec fn as_map(e: Seq<(Seq<char>, Seq<char>)>) -> Map<Seq<char>, Seq<char>> {
    Map::new(|k: Seq<char>| has_key(e, k), |k: Seq<char>| e[key_index(e, k)].1)
}

/// The store of variables.
pub struct Env {
    vars: Vec<(String, String)>,
}

impl View for Env {
    type V = Map<Seq<char>, Seq<char>>;

    open spec fn view(&self) -> Map<Seq<char>, Seq<char>> {
        as_map(self.entries())
    }
}

pub proof fn lemma_view_at(e: Seq<(Seq<char>, Seq<char>)>, i: int)
    requires
        sorted_keys(e),
        0 <= i < e.len(),
    ensures
        as_map(e).contains_key(e[i].0),
        as_map(e)[e[i].0] == e[i].1,
{
    let k = e[i].0;
    assert(has_key(e, k));
    let j = key_index(e, k);
    if j < i {
        assert(seq_lt(e[j].0, e[i].0));
        lemma_lt_irreflexive(k);
    } else if i < j {
        assert(seq_lt(e[i].0, e[j].0));
        lemma_lt_irreflexive(k);
    }
    assert(as_map(e).dom().contains(k));
    assert(as_map(e)[k] == e[j].1);
}

/// The number of bindings is the number of entries.
pub proof fn lemma_len(e: Seq<(Seq<char>, Seq<char>)>)
    requires
        sorted_keys(e),
    ensures
        as_map(e).dom().finite(),
        as_map(e).dom().len() == e.len(),
    decreases e.len(),
{
    if e.len() == 0 {
        assert(as_map(e).dom() =~= Set::empty());
    } else {
        let f = e.drop_last();
        assert(sorted_keys(f)) by {
            assert forall|i: int, j: int| 0 <= i < j < f.len() implies seq_lt(#[trigger] f[i].0, #[trigger] f[j].0) by {
                assert(f[i] == e[i] && f[j] == e[j]);
            }
        }
        lemma_len(f);
        let k = e.last().0;
        assert(as_map(e).dom() =~= as_map(f).dom().insert(k)) by {
            assert forall|x: Seq<char>| as_map(e).dom().contains(x) implies #[trigger] as_map(f).dom().insert(k).contains(x) by {
                let i = choose|i: int| 0 <= i < e.len() && #[trigger] e[i].0 == x;
                if i < f.len() {
                    assert(f[i].0 == x);
                }
            }
            assert forall|x: Seq<char>| #[trigger] as_map(f).dom().insert(k).contains(x) implies as_map(e).dom().contains(x) by {
                if x == k {
                    assert(e[e.len() - 1].0 == x);
                } else {
                    let i = choose|i: int| 0 <= i < f.len() && #[trigger] f[i].0 == x;
                    assert(e[i].0 == x);
                }
            }
        }
        if as_map(f).dom().contains(k) {
            let i = choose|i: int| 0 <= i < f.len() && #[trigger] f[i].0 == k;
            assert(seq_lt(e[i].0, e[e.len() - 1].0));
            lemma_lt_irreflexive(k);
        }
    }
}

impl Env {
    /// The entries, in order of name.
    pub closed spec fn entries(&self) -> Seq<(Seq<char>, Seq<char>)> {
        self.vars@.map_values(|p: (String, String)| (p.0@, p.1@))
    }

    /// Names are valid and strictly increasing.
    pub open spec fn wf(&self) -> bool {
        &&& sorted_keys(self.entries())
        &&& forall|i: int| 0 <= i < self.entries().len() ==> valid_name(#[trigger] self.entries()[i].0)
    }

    /// An empty store.
    pub fn new() -> (r: Env)
        ensures
            r.wf(),
            r@ == Map::<Seq<char>, Seq<char>>::empty(),
            r.entries().len() == 0,
    {
        let r = Env { vars: Vec::new() };
        assert(r@ =~= Map::<Seq<char>, Seq<char>>::empty());
        r
    }

    /// The number of bindings.
    pub fn len(&self) -> (r: usize)
        requires
            self.wf(),
        ensures
            r == self@.dom().len(),
    {
        proof {
            lemma_len(self.entries());
        }
        self.vars.len()
    }

    /// The number of entries.
    pub fn entry_count(&self) -> (r: usize)
        ensures
            r == self.entries().len(),
    {
        self.vars.len()
    }

    /// The entry at position `i`, in order of name.
    pub fn entry(&self, i: usize) -> (r: (&String, &String))
        requires
            i < self.entries().len(),
        ensures
            (r.0@, r.1@) == self.entries()[i as int],
    {
        (&self.vars[i].0, &self.vars[i].1)
    }

    /// The first position whose name is not below `k`.
    fn position(&self, k: &Vec<char>) -> (p: usize)
        requires
            self.wf(),
        ensures
            p <= self.entries().len(),
            forall|i: int| 0 <= i < p ==> seq_lt(#[trigger] self.entries()[i].0, k@),
            p < self.entries().len() ==> !seq_lt(self.entries()[p as int].0, k@),
    {
        let mut p: usize = 0;
        while p < self.vars.len()
            invariant
                p <= self.entries().len(),
                self.entries().len() == self.vars@.len(),
                forall|i: int| 0 <= i < p ==> seq_lt(#[trigger] self.entries()[i].0, k@),
            decreases self.vars@.len() - p,
        {
            let name = chars_of(self.vars[p].0.as_str());
            if !chars_lt(&name, k) {
                return p;
            }
            p = p + 1;
        }
        p
    }

    proof fn lemma_position_absent(&self, k: Seq<char>, p: int)
        requires
            self.wf(),
            0 <= p <= self.entries().len(),
            forall|i: int| 0 <= i < p ==> seq_lt(#[trigger] self.entries()[i].0, k),
            p < self.entries().len() ==> !seq_lt(self.entries()[p].0, k),
            p < self.entries().len() ==> self.entries()[p].0 != k,
        ensures
            !self@.contains_key(k),
            p < self.entries().len() ==> seq_lt(k, self.entries()[p].0),
    {
        let e = self.entries();
        if p < e.len() {
            lemma_lt_total(k, e[p].0);
        }
        if has_key(e, k) {
            let i = choose|i: int| 0 <= i < e.len() && #[trigger] e[i].0 == k;
            lemma_lt_irreflexive(k);
            if i > p {
                assert(seq_lt(e[p].0, e[i].0));
                lemma_lt_transitive(k, e[p].0, k);
            }
        }
    }

    /// The value bound to `key`, if any.
    pub fn get(&self, key: &str) -> (r: Option<String>)
        requires
            self.wf(),
        ensures
            match r {
                Some(v) => self@.contains_key(key@) && v@ == self@[key@],
                None => !self@.contains_key(key@),
            },
    {
        let k = chars_of(key);
        let p = self.position(&k);
        if p < self.vars.len() {
            let name = chars_of(self.vars[p].0.as_str());
            if chars_lt(&k, &name) {
                proof {
                    lemma_lt_irreflexive(k@);
                    self.lemma_position_absent(k@, p as int);
                }
                None
            } else {
                proof {
                    lemma_lt_total(k@, name@);
                    lemma_view_at(self.entries(), p as int);
                }
                Some(self.vars[p].1.clone())
            }
        } else {
            proof {
                self.lemma_position_absent(k@, p as int);
            }
            None
        }
    }

    /// Binds `key` to `value`, replacing any earlier value.
    pub fn insert(&mut self, key: String, value: String)
        requires
            old(self).wf(),
            valid_name(key@),
        ensures
            final(self).wf(),
            final(self)@ == old(self)@.insert(key@, value@),
    {
        let k = chars_of(key.as_str());
        let p = self.position(&k);
        let ghost e = self.entries();
        let ghost kv = (key@, value@);
        let mut same = false;
        if p < self.vars.len() {
            let name = chars_of(self.vars[p].0.as_str());
            same = !chars_lt(&k, &name);
            proof {
                if same {
                    lemma_lt_total(k@, name@);
                }
            }
        }
        if same {
            self.vars.set(p, (key, value));
            let ghost f = self.entries();
            assert(f =~= e.update(p as int, kv));
            assert(sorted_keys(f)) by {
                assert forall|i: int, j: int| 0 <= i < j < f.len() implies seq_lt(#[trigger] f[i].0, #[trigger] f[j].0) by {
                    assert(seq_lt(e[i].0, e[j].0));
                }
            }
            assert forall|i: int| 0 <= i < f.len() implies valid_name(#[trigger] f[i].0) by {
                assert(valid_name(e[i].0));
            }
            assert(self@ =~= old(self)@.insert(key@, value@)) by {
                lemma_view_at(f, p as int);
                assert forall|x: Seq<char>| #[trigger] self@.contains_key(x) <==> old(self)@.insert(key@, value@).contains_key(x) by {
                    if has_key(f, x) {
                        let i = choose|i: int| 0 <= i < f.len() && #[trigger] f[i].0 == x;
                        assert(e[i].0 == x);
                    }
                    if has_key(e, x) {
                        let i = choose|i: int| 0 <= i < e.len() && #[trigger] e[i].0 == x;
                        assert(f[i].0 == x);
                    }
                }
                assert forall|x: Seq<char>| #[trigger] self@.contains_key(x) && x != key@ implies self@[x] == old(self)@[x] by {
                    let i = choose|i: int| 0 <= i < f.len() && #[trigger] f[i].0 == x;
                    lemma_view_at(f, i);
                    lemma_view_at(e, i);
                }
            }
        } else {
            proof {
                self.lemma_position_absent(k@, p as int);
            }
            self.vars.insert(p, (key, value));
            let ghost f = self.entries();
            assert(f =~= e.insert(p as int, kv));
            assert(sorted_keys(f)) by {
                assert forall|i: int, j: int| 0 <= i < j < f.len() implies seq_lt(#[trigger] f[i].0, #[trigger] f[j].0) by {
                    if j < p {
                        assert(seq_lt(e[i].0, e[j].0));
                    } else if j == p {
                        assert(seq_lt(e[i].0, k@));
                    } else if i < p {
                        assert(seq_lt(e[i].0, k@));
                        if j - 1 > p {
                            assert(seq_lt(e[p as int].0, e[j - 1].0));
                            lemma_lt_transitive(k@, e[p as int].0, e[j - 1].0);
                        }
                        lemma_lt_transitive(e[i].0, k@, e[j - 1].0);
                    } else if i == p {
                        if j - 1 > p {
                            assert(seq_lt(e[p as int].0, e[j - 1].0));
                            lemma_lt_transitive(k@, e[p as int].0, e[j - 1].0);
                        }
                    } else {
                        assert(seq_lt(e[i - 1].0, e[j - 1].0));
                    }
                }
            }
            assert forall|i: int| 0 <= i < f.len() implies valid_name(#[trigger] f[i].0) by {
                if i < p {
                    assert(valid_name(e[i].0));
                } else if i > p {
                    assert(valid_name(e[i - 1].0));
                }
            }
            assert(self@ =~= old(self)@.insert(key@, value@)) by {
                lemma_view_at(f, p as int);
                assert forall|x: Seq<char>| #[trigger] self@.contains_key(x) <==> old(self)@.insert(key@, value@).contains_key(x) by {
                    if has_key(f, x) {
                        let i = choose|i: int| 0 <= i < f.len() && #[trigger] f[i].0 == x;
                        if i < p {
                            assert(e[i].0 == x);
                        } else if i > p {
                            assert(e[i - 1].0 == x);
                        }
                    }
                    if has_key(e, x) {
                        let i = choose|i: int| 0 <= i < e.len() && #[trigger] e[i].0 == x;
                        if i < p {
                            assert(f[i].0 == x);
                        } else {
                            assert(f[i + 1].0 == x);
                        }
                    }
                }
                assert forall|x: Seq<char>| #[trigger] self@.contains_key(x) && x != key@ implies self@[x] == old(self)@[x] by {
                    let i = choose|i: int| 0 <= i < f.len() && #[trigger] f[i].0 == x;
                    lemma_view_at(f, i);
                    if i < p {
                        lemma_view_at(e, i);
                    } else {
                        lemma_view_at(e, i - 1);
                    }
                }
            }
        }
    }

    /// Removes the binding of `key`, if there is one.
    pub fn remove(&mut self, key: &str)
        requires
            old(self).wf(),
        ensures
            final(self).wf(),
            final(self)@ == old(self)@.remove(key@),
    {
        let k = chars_of(key);
        let p = self.position(&k);
        let ghost e = self.entries();
        let mut found = false;
        if p < self.vars.len() {
            let name = chars_of(self.vars[p].0.as_str());
            found = !chars_lt(&k, &name);
            proof {
                if found {
                    lemma_lt_total(k@, name@);
                }
            }
        }
        if found {
            self.vars.remove(p);
            let ghost f = self.entries();
            assert(f =~= e.remove(p as int));
            assert(sorted_keys(f)) by {
                assert forall|i: int, j: int| 0 <= i < j < f.len() implies seq_lt(#[trigger] f[i].0, #[trigger] f[j].0) by {
                    if j < p {
                        assert(seq_lt(e[i].0, e[j].0));
                    } else if i < p {
                        assert(seq_lt(e[i].0, e[j + 1].0));
                    } else {
                        assert(seq_lt(e[i + 1].0, e[j + 1].0));
                    }
                }
            }
            assert forall|i: int| 0 <= i < f.len() implies valid_name(#[trigger] f[i].0) by {
                if i < p {
                    assert(valid_name(e[i].0));
                } else {
                    assert(valid_name(e[i + 1].0));
                }
            }
            assert(self@ =~= old(self)@.remove(key@)) by {
                assert forall|x: Seq<char>| #[trigger] self@.contains_key(x) <==> old(self)@.remove(key@).contains_key(x) by {
                    if has_key(f, x) {
                        let i = choose|i: int| 0 <= i < f.len() && #[trigger] f[i].0 == x;
                        if i < p {
                            assert(e[i].0 == x);
                            assert(seq_lt(e[i].0, e[p as int].0));
                        } else {
                            assert(e[i + 1].0 == x);
                            assert(seq_lt(e[p as int].0, e[i + 1].0));
                        }
                        lemma_lt_irreflexive(x);
                    }
                    if has_key(e, x) && x != key@ {
                        let i = choose|i: int| 0 <= i < e.len() && #[trigger] e[i].0 == x;
                        if i < p {
                            assert(f[i].0 == x);
                        } else {
                            assert(f[i - 1].0 == x);
                        }
                    }
                }
                assert forall|x: Seq<char>| #[trigger] self@.contains_key(x) implies self@[x] == old(self)@[x] by {
                    let i = choose|i: int| 0 <= i < f.len() && #[trigger] f[i].0 == x;
                    lemma_view_at(f, i);
                    if i < p {
                        lemma_view_at(e, i);
                    } else {
                        lemma_view_at(e, i + 1);
                    }
                }
            }
        } else {
            proof {
                self.lemma_position_absent(k@, p as int);
            }
            assert(self@ =~= old(self)@.remove(key@));
        }
    }
}

} // verus!
