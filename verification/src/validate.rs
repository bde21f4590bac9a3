//! Validation of a parameter mapping against a template's name set.

use vstd::prelude::*;

verus! {

use crate::params::ParamMap;
use crate::template::Template;
use crate::template::contains_bytes;

/// An error of the template pipeline.
#[derive(Debug, PartialEq, Eq)]
pub enum RequestrError {
    /// Placeholder names with no parameter, in the order the template first
    /// uses them.
    MissingParameter(Vec<Vec<u8>>),
    /// A request definition field that no request can be built from: carries
    /// the offending method name, uppercased.
    BrokenRequestConfig(Vec<u8>),
}

/// The elements of `xs`, in order, that are not in `s`; duplicates kept.
pub open spec fn absent_of(xs: Seq<Seq<u8>>, s: Set<Seq<u8>>) -> Seq<Seq<u8>>
    decreases xs.len(),
{
    if xs.len() == 0 {
        Seq::empty()
    } else {
        let pre = absent_of(xs.drop_last(), s);
        if s.contains(xs.last()) {
            pre
        } else {
            pre.push(xs.last())
        }
    }
}

/// `absent_of` is empty exactly when every element of `xs` is in `s`.
pub proof fn lemma_absent_of_empty(xs: Seq<Seq<u8>>, s: Set<Seq<u8>>)
    ensures
        absent_of(xs, s).len() == 0 <==> (forall|x: Seq<u8>| xs.contains(x) ==> s.contains(x)),
    decreases xs.len(),
{
    if xs.len() > 0 {
        let pre_xs = xs.drop_last();
        lemma_absent_of_empty(pre_xs, s);
        if absent_of(xs, s).len() == 0 {
            assert forall|x: Seq<u8>| xs.contains(x) implies s.contains(x) by {
                let j = choose|j: int| 0 <= j < xs.len() && xs[j] == x;
                if j < xs.len() - 1 {
                    assert(pre_xs[j] == x);
                    assert(pre_xs.contains(x));
                } else {
                    assert(x == xs.last());
                }
            }
        }
        if forall|x: Seq<u8>| xs.contains(x) ==> s.contains(x) {
            assert forall|x: Seq<u8>| pre_xs.contains(x) implies s.contains(x) by {
                let j = choose|j: int| 0 <= j < pre_xs.len() && pre_xs[j] == x;
                assert(xs[j] == x);
                assert(xs.contains(x));
            }
            assert(xs[xs.len() - 1] == xs.last());
            assert(xs.contains(xs.last()));
        }
    }
}

/// An element is in `absent_of(xs, s)` exactly when it is in `xs` and not in
/// `s`.
pub proof fn lemma_absent_of_members(xs: Seq<Seq<u8>>, s: Set<Seq<u8>>)
    ensures
        forall|x: Seq<u8>|
            #[trigger] absent_of(xs, s).contains(x) <==> xs.contains(x) && !s.contains(x),
    decreases xs.len(),
{
    if xs.len() > 0 {
        let pre_xs = xs.drop_last();
        lemma_absent_of_members(pre_xs, s);
        let pre = absent_of(pre_xs, s);
        assert forall|x: Seq<u8>| #[trigger]
            absent_of(xs, s).contains(x) implies xs.contains(x) && !s.contains(x) by {
            if pre.contains(x) {
                assert(pre_xs.contains(x));
                let j = choose|j: int| 0 <= j < pre_xs.len() && pre_xs[j] == x;
                assert(xs[j] == x);
            } else {
                let k = choose|k: int|
                    0 <= k < absent_of(xs, s).len() && absent_of(xs, s)[k] == x;
                assert(!s.contains(xs.last()));
                assert(x == xs.last());
                assert(xs[xs.len() - 1] == x);
            }
            assert(xs.contains(x));
        }
        assert forall|x: Seq<u8>|
            xs.contains(x) && !s.contains(x) implies #[trigger] absent_of(xs, s).contains(x) by {
            let j = choose|j: int| 0 <= j < xs.len() && xs[j] == x;
            if j < xs.len() - 1 {
                assert(pre_xs[j] == x);
                assert(pre_xs.contains(x));
                assert(pre.contains(x));
                let k = choose|k: int| 0 <= k < pre.len() && pre[k] == x;
                if !s.contains(xs.last()) {
                    assert(pre.push(xs.last())[k] == x);
                }
            } else {
                assert(x == xs.last());
                assert(absent_of(xs, s)[absent_of(xs, s).len() - 1] == x);
            }
        }
    }
}

/// Compares the template's name set with the parameter names. Succeeds when
/// every template name has a parameter; otherwise fails with the missing
/// names, each once, in the order the template first uses them. Parameters
/// that no placeholder uses never fail validation; `unused_parameters`
/// reports them.
pub fn validate_parameter(template: &Template, parameter: &ParamMap) -> (r: Result<
    (),
    RequestrError,
>)
    requires
        template.wf(),
        parameter.wf(),
    ensures
        match r {
            Ok(()) => absent_of(template.names_seq(), parameter@.dom()).len() == 0,
            Err(e) => e matches RequestrError::MissingParameter(v) && v.deep_view() == absent_of(
                template.names_seq(),
                parameter@.dom(),
            ) && v.deep_view().len() > 0,
        },
        r is Ok <==> template.names_set().subset_of(parameter@.dom()),
{
    let ghost names = template.names_seq();
    let ghost dom = parameter@.dom();
    let mut missing: Vec<Vec<u8>> = Vec::new();
    let mut j: usize = 0;
    while j < template.names.len()
        invariant
            template.wf(),
            parameter.wf(),
            names == template.names_seq(),
            dom == parameter@.dom(),
            j <= names.len(),
            names.len() == template.names@.len(),
            missing.deep_view() == absent_of(names.take(j as int), dom),
        decreases names.len() - j,
    {
        let name = &template.names[j];
        let ghost taken = names.take(j as int);
        proof {
            assert(names.take(j as int + 1).drop_last() =~~= taken);
            assert(names.take(j as int + 1).last() =~~= name@);
        }
        match parameter.get(name) {
            Some(_) => {
                proof {
                    assert(dom.contains(names.take(j as int + 1).last()));
                }
            },
            None => {
                let copy = crate::bytes::copy_range(name, 0, name.len());
                proof {
                    assert(copy@ =~= name@);
                }
                missing.push(copy);
                proof {
                    assert(!dom.contains(names.take(j as int + 1).last()));
                    assert(missing.deep_view() =~~= absent_of(taken, dom).push(name@));
                }
            },
        }
        j += 1;
    }
    proof {
        assert(names.take(names.len() as int) =~~= names);
        lemma_absent_of_empty(names, dom);
    }
    if missing.len() == 0 {
        Ok(())
    } else {
        Err(RequestrError::MissingParameter(missing))
    }
}

/// The parameter names that no placeholder uses, in insertion order: an
/// advisory for the caller, never an error.
pub fn unused_parameters(template: &Template, parameter: &ParamMap) -> (r: Vec<Vec<u8>>)
    requires
        template.wf(),
        parameter.wf(),
    ensures
        r.deep_view() == absent_of(parameter.keys_seq(), template.names_set()),
{
    let ghost keys = parameter.keys_seq();
    let ghost names = template.names_set();
    let ks = parameter.keys();
    let mut unused: Vec<Vec<u8>> = Vec::new();
    let mut j: usize = 0;
    while j < ks.len()
        invariant
            template.wf(),
            keys == parameter.keys_seq(),
            names == template.names_set(),
            ks.deep_view() == keys,
            j <= keys.len(),
            keys.len() == ks@.len(),
            unused.deep_view() == absent_of(keys.take(j as int), names),
        decreases keys.len() - j,
    {
        let key = &ks[j];
        let ghost taken = keys.take(j as int);
        proof {
            assert(names == template.names_seq().to_set());
            assert(keys.take(j as int + 1).drop_last() =~~= taken);
            assert(keys.take(j as int + 1).last() =~~= key@);
            assert(ks.deep_view()[j as int] == key@);
        }
        if contains_bytes(&template.names, key) {
            proof {
                assert(template.names_seq().contains(key@));
                assert(names.contains(keys.take(j as int + 1).last()));
            }
        } else {
            proof {
                if names.contains(key@) {
                    assert(template.names_seq().contains(key@));
                }
            }
            let copy = crate::bytes::copy_range(key, 0, key.len());
            proof {
                assert(copy@ =~= key@);
            }
            unused.push(copy);
            proof {
                assert(!names.contains(keys.take(j as int + 1).last()));
                assert(unused.deep_view() =~~= absent_of(taken, names).push(key@));
            }
        }
        j += 1;
    }
    proof {
        assert(keys.take(keys.len() as int) =~~= keys);
    }
    unused
}

} // verus!
