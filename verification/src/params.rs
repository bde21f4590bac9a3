//! Parameter mappings: caller-supplied name/value pairs with unique names.

use vstd::prelude::*;

verus! {

/// The `=` byte.
pub const EQUALS_BYTE: u8 = 0x3d;

/// No key appears twice.
pub open spec fn unique_keys(es: Seq<(Vec<u8>, Vec<u8>)>) -> bool {
    forall|j: int, k: int|
        0 <= j < k < es.len() ==> (#[trigger] es[j]).0@ != (#[trigger] es[k]).0@
}

/// The mapping that a list of entries denotes; a later entry wins over an
/// earlier one with the same key.
pub open spec fn entries_map(es: Seq<(Vec<u8>, Vec<u8>)>) -> Map<Seq<u8>, Seq<u8>>
    decreases es.len(),
{
    if es.len() == 0 {
        Map::empty()
    } else {
        entries_map(es.drop_last()).insert(es.last().0@, es.last().1@)
    }
}

proof fn lemma_entries_map(es: Seq<(Vec<u8>, Vec<u8>)>)
    ensures
        forall|x: Seq<u8>|
            #[trigger] entries_map(es).dom().contains(x) <==> exists|j: int|
                0 <= j < es.len() && (#[trigger] es[j]).0@ == x,
        unique_keys(es) ==> forall|j: int|
            0 <= j < es.len() ==> entries_map(es)[(#[trigger] es[j]).0@] == es[j].1@,
    decreases es.len(),
{
    if es.len() > 0 {
        let pre = es.drop_last();
        lemma_entries_map(pre);
        assert forall|x: Seq<u8>| #[trigger]
            entries_map(es).dom().contains(x) implies exists|j: int|
            0 <= j < es.len() && (#[trigger] es[j]).0@ == x by {
            if x == es.last().0@ {
                assert(es[es.len() - 1].0@ == x);
            } else {
                assert(entries_map(pre).dom().contains(x));
                let j = choose|j: int| 0 <= j < pre.len() && (#[trigger] pre[j]).0@ == x;
                assert(es[j].0@ == x);
            }
        }
        assert forall|x: Seq<u8>|
            (exists|j: int|
                0 <= j < es.len() && (#[trigger] es[j]).0@ == x) implies #[trigger] entries_map(
            es,
        ).dom().contains(x) by {
            let j = choose|j: int| 0 <= j < es.len() && (#[trigger] es[j]).0@ == x;
            if j < es.len() - 1 {
                assert(pre[j].0@ == x);
                assert(entries_map(pre).dom().contains(x));
            }
        }
        if unique_keys(es) {
            assert(unique_keys(pre)) by {
                assert(forall|j: int| 0 <= j < pre.len() ==> pre[j] == es[j]);
            }
            assert forall|j: int|
                0 <= j < es.len() implies entries_map(es)[(#[trigger] es[j]).0@] == es[j].1@ by {
                if j < es.len() - 1 {
                    assert(pre[j] == es[j]);
                    assert(es[j].0@ != es[es.len() - 1].0@);
                    assert(entries_map(pre)[es[j].0@] == es[j].1@);
                }
            }
        }
    }
}

/// A parameter mapping from names to values, both byte strings. Keys are
/// unique; insertion order is kept and is the order `keys` reports.
pub struct ParamMap {
    entries: Vec<(Vec<u8>, Vec<u8>)>,
}

impl View for ParamMap {
    type V = Map<Seq<u8>, Seq<u8>>;

    closed spec fn view(&self) -> Map<Seq<u8>, Seq<u8>> {
        entries_map(self.entries@)
    }
}

impl ParamMap {
    /// Keys are unique.
    pub closed spec fn wf(&self) -> bool {
        unique_keys(self.entries@)
    }

    /// The keys, in insertion order.
    pub closed spec fn keys_seq(&self) -> Seq<Seq<u8>> {
        Seq::new(self.entries@.len(), |i: int| self.entries@[i].0@)
    }

    /// Every key of the mapping is a key of `keys_seq` and conversely.
    pub proof fn lemma_keys_complete(&self)
        ensures
            forall|x: Seq<u8>| self@.dom().contains(x) <==> self.keys_seq().contains(x),
    {
        lemma_entries_map(self.entries@);
        assert forall|x: Seq<u8>| self@.dom().contains(x) implies self.keys_seq().contains(x) by {
            let j = choose|j: int|
                0 <= j < self.entries@.len() && (#[trigger] self.entries@[j]).0@ == x;
            assert(self.keys_seq()[j] == x);
        }
        assert forall|x: Seq<u8>| self.keys_seq().contains(x) implies self@.dom().contains(x) by {
            let j = choose|j: int|
                0 <= j < self.keys_seq().len() && self.keys_seq()[j] == x;
            assert(self.entries@[j].0@ == x);
        }
    }

    /// An empty mapping.
    pub fn new() -> (m: ParamMap)
        ensures
            m@ == Map::<Seq<u8>, Seq<u8>>::empty(),
            m.wf(),
            m.keys_seq() == Seq::<Seq<u8>>::empty(),
    {
        let m = ParamMap { entries: Vec::new() };
        proof {
            assert(m.keys_seq() =~= Seq::<Seq<u8>>::empty());
        }
        m
    }

    /// The number of entries.
    pub fn len(&self) -> (n: usize)
        ensures
            n == self.keys_seq().len(),
    {
        self.entries.len()
    }

    /// Looks a name up; `Some` with the associated value exactly when the
    /// name is a key.
    pub fn get(&self, key: &Vec<u8>) -> (r: Option<&Vec<u8>>)
        requires
            self.wf(),
        ensures
            match r {
                Some(v) => self@.dom().contains(key@) && v@ == self@[key@],
                None => !self@.dom().contains(key@),
            },
    {
        let mut j: usize = 0;
        while j < self.entries.len()
            invariant
                self.wf(),
                j <= self.entries@.len(),
                forall|k: int| 0 <= k < j ==> (#[trigger] self.entries@[k]).0@ != key@,
            decreases self.entries@.len() - j,
        {
            if crate::bytes::bytes_eq(&self.entries[j].0, key) {
                proof {
                    lemma_entries_map(self.entries@);
                    assert(self.entries@[j as int].0@ == key@);
                    assert(self@.dom().contains(key@));
                    assert(self@[key@] == self.entries@[j as int].1@);
                }
                return Some(&self.entries[j].1);
            }
            j += 1;
        }
        proof {
            lemma_entries_map(self.entries@);
            if self@.dom().contains(key@) {
                let k = choose|k: int|
                    0 <= k < self.entries@.len() && (#[trigger] self.entries@[k]).0@ == key@;
            }
        }
        None
    }

    /// Binds a name to a value: replaces the value of an existing key, or
    /// appends a new entry.
    pub fn insert(&mut self, key: Vec<u8>, value: Vec<u8>)
        requires
            old(self).wf(),
        ensures
            final(self).wf(),
            final(self)@ == old(self)@.insert(key@, value@),
            final(self).keys_seq() == if old(self)@.dom().contains(key@) {
                old(self).keys_seq()
            } else {
                old(self).keys_seq().push(key@)
            },
    {
        let ghost es = self.entries@;
        let ghost keyv = key@;
        let ghost valv = value@;
        let mut j: usize = 0;
        while j < self.entries.len()
            invariant
                unique_keys(es),
                es == old(self).entries@,
                j <= es.len(),
                self.entries@ == es,
                keyv == key@,
                valv == value@,
                forall|k: int| 0 <= k < j ==> (#[trigger] es[k]).0@ != keyv,
            decreases es.len() - j,
        {
            if crate::bytes::bytes_eq(&self.entries[j].0, &key) {
                proof {
                    assert(es[j as int].0@ == keyv);
                }
                let ghost jj = j as int;
                self.entries[j] = (key, value);
                proof {
                    assert(self.entries@ == es.update(jj, self.entries@[jj]));
                    assert(self.entries@[jj].0@ == keyv && self.entries@[jj].1@ == valv);
                    lemma_update_same_key(es, jj, self.entries@[jj]);
                    assert(self.keys_seq() =~~= old(self).keys_seq());
                    lemma_entries_map(es);
                    assert(old(self)@.dom().contains(keyv)) by {
                        assert(es[jj].0@ == keyv);
                    }
                }
                return ;
            }
            j += 1;
        }
        proof {
            lemma_entries_map(es);
            if old(self)@.dom().contains(keyv) {
                let k = choose|k: int| 0 <= k < es.len() && (#[trigger] es[k]).0@ == keyv;
            }
        }
        self.entries.push((key, value));
        proof {
            assert(self.entries@.drop_last() =~= es);
            assert(self.entries@.last().0@ == keyv && self.entries@.last().1@ == valv);
            assert(self.keys_seq() =~~= old(self).keys_seq().push(keyv));
            assert forall|j2: int, k: int|
                0 <= j2 < k < self.entries@.len() implies (#[trigger] self.entries@[j2]).0@ != (
            #[trigger] self.entries@[k]).0@ by {
                if k < self.entries@.len() - 1 {
                    assert(self.entries@[j2] == es[j2] && self.entries@[k] == es[k]);
                } else {
                    assert(self.entries@[j2] == es[j2]);
                }
            }
        }
    }

    /// The keys, copied, in insertion order.
    pub fn keys(&self) -> (ks: Vec<Vec<u8>>)
        ensures
            ks.deep_view() == self.keys_seq(),
    {
        let mut ks: Vec<Vec<u8>> = Vec::new();
        let mut j: usize = 0;
        while j < self.entries.len()
            invariant
                j <= self.entries@.len(),
                ks@.len() == j,
                forall|i: int| 0 <= i < j ==> (#[trigger] ks@[i])@ == self.entries@[i].0@,
            decreases self.entries@.len() - j,
        {
            let k = crate::bytes::copy_range(&self.entries[j].0, 0, self.entries[j].0.len());
            proof {
                assert(k@ =~= self.entries@[j as int].0@);
            }
            ks.push(k);
            j += 1;
        }
        proof {
            assert forall|i: int| 0 <= i < ks@.len() implies ks.deep_view()[i] == self.keys_seq()[i] by {
                assert(ks@[i].deep_view() =~= ks@[i]@);
            }
            assert(ks.deep_view() =~~= self.keys_seq());
        }
        ks
    }
}

/// The position of the first `=` at or after `i`, or the length when there
/// is none.
pub open spec fn find_eq(a: Seq<u8>, i: int) -> int
    decreases a.len() - i,
{
    if 0 <= i < a.len() {
        if a[i] == EQUALS_BYTE {
            i
        } else {
            find_eq(a, i + 1)
        }
    } else {
        a.len() as int
    }
}

/// The key of each argument that holds an `=`, in argument order.
pub open spec fn arg_keys(args: Seq<Seq<u8>>) -> Seq<Seq<u8>>
    decreases args.len(),
{
    if args.len() == 0 {
        Seq::empty()
    } else {
        let pre = arg_keys(args.drop_last());
        let a = args.last();
        let p = find_eq(a, 0);
        if p < a.len() {
            pre.push(a.subrange(0, p))
        } else {
            pre
        }
    }
}

/// The mapping that `key=value` arguments denote: the text before an
/// argument's first `=` maps to the text after it; an argument without `=`
/// is skipped; for a repeated key the later argument wins.
pub open spec fn params_of(args: Seq<Seq<u8>>) -> Map<Seq<u8>, Seq<u8>>
    decreases args.len(),
{
    if args.len() == 0 {
        Map::empty()
    } else {
        let m = params_of(args.drop_last());
        let a = args.last();
        let p = find_eq(a, 0);
        if p < a.len() {
            m.insert(a.subrange(0, p), a.subrange(p + 1, a.len() as int))
        } else {
            m
        }
    }
}

fn find_eq_in(a: &Vec<u8>) -> (r: usize)
    ensures
        r == find_eq(a@, 0),
        r <= a.len(),
{
    let mut j: usize = 0;
    while j < a.len()
        invariant
            j <= a.len(),
            find_eq(a@, 0) == find_eq(a@, j as int),
        decreases a.len() - j,
    {
        if a[j] == EQUALS_BYTE {
            return j;
        }
        j += 1;
    }
    j
}

/// Builds the mapping that a list of `key=value` arguments denotes. The keys
/// keep the order in which the arguments first bind them.
pub fn params_to_map(args: &Vec<Vec<u8>>) -> (m: ParamMap)
    ensures
        m.wf(),
        m@ == params_of(args.deep_view()),
        m.keys_seq() == crate::template::dedup(arg_keys(args.deep_view())),
{
    let ghost av = args.deep_view();
    let mut m = ParamMap::new();
    let mut j: usize = 0;
    proof {
        assert(av.take(0) =~~= Seq::<Seq<u8>>::empty());
    }
    while j < args.len()
        invariant
            m.wf(),
            av == args.deep_view(),
            j <= av.len(),
            av.len() == args@.len(),
            m@ == params_of(av.take(j as int)),
            m.keys_seq() == crate::template::dedup(arg_keys(av.take(j as int))),
        decreases av.len() - j,
    {
        let a = &args[j];
        let ghost taken = av.take(j as int);
        proof {
            assert(a.deep_view() =~= a@);
            assert(av[j as int] == a@);
            assert(av.take(j as int + 1).drop_last() =~~= taken);
            assert(av.take(j as int + 1).last() == a@);
        }
        let p = find_eq_in(a);
        if p < a.len() {
            let key = crate::bytes::copy_range(a, 0, p);
            let value = crate::bytes::copy_range(a, p + 1, a.len());
            let ghost keyv = key@;
            proof {
                m.lemma_keys_complete();
            }
            m.insert(key, value);
            proof {
                let ks = arg_keys(taken);
                assert(arg_keys(av.take(j as int + 1)) == ks.push(keyv));
                assert(ks.push(keyv).drop_last() =~~= ks);
                assert(ks.push(keyv).last() == keyv);
            }
        }
        j += 1;
    }
    proof {
        assert(av.take(av.len() as int) =~~= av);
    }
    m
}

/// Updating an entry in place, keeping its key, is insertion into the
/// denoted mapping.
proof fn lemma_update_same_key(es: Seq<(Vec<u8>, Vec<u8>)>, j: int, p: (Vec<u8>, Vec<u8>))
    requires
        unique_keys(es),
        0 <= j < es.len(),
        p.0@ == es[j].0@,
    ensures
        unique_keys(es.update(j, p)),
        entries_map(es.update(j, p)) == entries_map(es).insert(p.0@, p.1@),
    decreases es.len(),
{
    let es2 = es.update(j, p);
    assert forall|a: int, b: int|
        0 <= a < b < es2.len() implies (#[trigger] es2[a]).0@ != (#[trigger] es2[b]).0@ by {
        assert(es[a].0@ != es[b].0@);
        assert(es2[a].0@ == es[a].0@ && es2[b].0@ == es[b].0@);
    }
    if j == es.len() - 1 {
        assert(es2.drop_last() =~~= es.drop_last());
        assert(es2.last() == p);
        assert(entries_map(es2) == entries_map(es.drop_last()).insert(p.0@, p.1@));
        assert(entries_map(es).insert(p.0@, p.1@) =~= entries_map(es.drop_last()).insert(
            p.0@,
            p.1@,
        ));
    } else {
        assert(unique_keys(es.drop_last())) by {
            assert(forall|k: int| 0 <= k < es.len() - 1 ==> es.drop_last()[k] == es[k]);
        }
        assert(es.drop_last()[j] == es[j]);
        lemma_update_same_key(es.drop_last(), j, p);
        assert(es2.drop_last() =~~= es.drop_last().update(j, p));
        assert(es2.last() == es.last());
        assert(entries_map(es2) == entries_map(es.drop_last()).insert(p.0@, p.1@).insert(
            es.last().0@,
            es.last().1@,
        ));
        assert(es.last().0@ != p.0@);
        assert(entries_map(es.drop_last()).insert(p.0@, p.1@).insert(es.last().0@, es.last().1@)
            =~= entries_map(es.drop_last()).insert(es.last().0@, es.last().1@).insert(
            p.0@,
            p.1@,
        ));
    }
}

} // verus!
