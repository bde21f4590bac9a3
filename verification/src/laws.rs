//! Laws of the template pipeline, stated over the same spec functions the
//! executable contracts use.

use vstd::prelude::*;

verus! {

use crate::params::ParamMap;
use crate::template::OPEN_BYTE;
use crate::template::Template;
use crate::template::match_end;
use crate::template::name_at;
use crate::template::piece;
use crate::template::render_from;
use crate::template::scan_from;
use crate::template::dedup;
use crate::template::token_seq;
use crate::template::lemma_dedup_same_values;
use crate::validate::absent_of;
use crate::validate::lemma_absent_of_empty;

proof fn lemma_no_marker_scan_empty(s: Seq<u8>, i: int)
    requires
        0 <= i,
        forall|k: int| 0 <= k && k + 1 < s.len() ==> !(#[trigger] s[k] == OPEN_BYTE && s[k + 1] == OPEN_BYTE),
    ensures
        scan_from(s, i).len() == 0,
    decreases s.len() - i,
{
    if i < s.len() {
        assert(match_end(s, i) is None);
        lemma_no_marker_scan_empty(s, i + 1);
    }
}

proof fn lemma_render_empty_spans(s: Seq<u8>, m: Map<Seq<u8>, Seq<u8>>)
    ensures
        render_from(s, Seq::empty(), m, 0) == s,
{
    assert(s.subrange(0, s.len() as int) =~= s);
}

/// Law: a template in whose text the opening marker never occurs has no
/// placeholders, and renders to its text unchanged, whatever the parameters.
pub proof fn lemma_render_no_placeholders(t: Template, m: Map<Seq<u8>, Seq<u8>>)
    requires
        t.wf(),
        forall|k: int|
            0 <= k && k + 1 < t.src@.len() ==> !(#[trigger] t.src@[k] == OPEN_BYTE && t.src@[k + 1]
                == OPEN_BYTE),
    ensures
        t.spans().len() == 0,
        render_from(t.src@, t.spans(), m, 0) == t.src@,
{
    lemma_no_marker_scan_empty(t.src@, 0);
    lemma_render_without_matches(t, m);
}

/// Law: a template without placeholder matches renders to its text
/// unchanged, whatever the parameters.
pub proof fn lemma_render_without_matches(t: Template, m: Map<Seq<u8>, Seq<u8>>)
    requires
        t.wf(),
        t.spans().len() == 0,
    ensures
        render_from(t.src@, t.spans(), m, 0) == t.src@,
{
    assert(t.spans() =~= Seq::<(int, int)>::empty());
    lemma_render_empty_spans(t.src@, m);
}

/// Law: every placeholder occurrence's name is in the template's name set,
/// and every name in the set is some occurrence's name.
pub proof fn lemma_names_are_occurrence_names(t: Template)
    requires
        t.wf(),
    ensures
        forall|k: int|
            0 <= k < t.spans().len() ==> t.names_set().contains(
                name_at(t.src@, (#[trigger] t.spans()[k]).0),
            ),
        forall|x: Seq<u8>|
            t.names_set().contains(x) ==> exists|k: int|
                0 <= k < t.spans().len() && name_at(t.src@, (#[trigger] t.spans()[k]).0) == x,
{
    let s = t.src@;
    let spans = t.spans();
    let ts = token_seq(s, spans);
    lemma_dedup_same_values(ts);
    assert forall|k: int|
        0 <= k < spans.len() implies t.names_set().contains(
        name_at(s, (#[trigger] spans[k]).0),
    ) by {
        assert(ts[k] == name_at(s, spans[k].0));
        assert(ts.contains(ts[k]));
        assert(dedup(ts).contains(ts[k]));
        assert(t.names_seq().contains(ts[k]));
    }
    assert forall|x: Seq<u8>| t.names_set().contains(x) implies exists|k: int|
        0 <= k < spans.len() && name_at(s, (#[trigger] spans[k]).0) == x by {
        assert(t.names_seq().contains(x));
        assert(dedup(ts).contains(x));
        assert(ts.contains(x));
        let k = choose|k: int| 0 <= k < ts.len() && ts[k] == x;
        assert(name_at(s, spans[k].0) == x);
    }
}

/// Law: when every template name is bound, no occurrence stays unresolved:
/// each occurrence contributes the bound value of its name to the rendered
/// text, never its original delimited text.
pub proof fn lemma_all_bound_substitutes(t: Template, m: Map<Seq<u8>, Seq<u8>>)
    requires
        t.wf(),
        t.names_set().subset_of(m.dom()),
    ensures
        forall|k: int|
            0 <= k < t.spans().len() ==> {
                let sp = #[trigger] t.spans()[k];
                m.dom().contains(name_at(t.src@, sp.0)) && piece(t.src@, sp, m) == m[name_at(
                    t.src@,
                    sp.0,
                )]
            },
{
    lemma_names_are_occurrence_names(t);
}

/// Law: rendering leaves unresolved exactly the occurrences whose name is
/// unbound: such an occurrence contributes its original text, delimiters
/// kept; a bound occurrence contributes the bound value.
pub proof fn lemma_unresolved_exactly_unbound(t: Template, m: Map<Seq<u8>, Seq<u8>>)
    requires
        t.wf(),
    ensures
        forall|k: int|
            0 <= k < t.spans().len() ==> {
                let sp = #[trigger] t.spans()[k];
                piece(t.src@, sp, m) == if m.dom().contains(name_at(t.src@, sp.0)) {
                    m[name_at(t.src@, sp.0)]
                } else {
                    t.src@.subrange(sp.0, sp.1)
                }
            },
{
}

/// Law: a template never lists a name twice: the name set is genuinely a
/// set, whatever the text repeats.
pub proof fn lemma_names_distinct(t: Template)
    requires
        t.wf(),
    ensures
        forall|j: int, k: int|
            0 <= j < k < t.names_seq().len() ==> #[trigger] t.names_seq()[j] != #[trigger] t.names_seq()[k],
{
    crate::template::lemma_dedup_distinct(token_seq(t.src@, t.spans()));
}

/// Law: the missing list that validation reports holds exactly the template
/// names that have no parameter.
pub proof fn lemma_missing_exactly_unbound_names(t: Template, p: ParamMap)
    requires
        t.wf(),
        p.wf(),
    ensures
        forall|x: Seq<u8>|
            #[trigger] absent_of(t.names_seq(), p@.dom()).contains(x) <==> t.names_seq().contains(
                x,
            ) && !p@.dom().contains(x),
{
    crate::validate::lemma_absent_of_members(t.names_seq(), p@.dom());
}

/// Law: validation succeeds exactly when the template's name set is a subset
/// of the parameter names; equivalently, the missing list is empty exactly
/// then.
pub proof fn lemma_validate_iff_subset(t: Template, p: ParamMap)
    requires
        t.wf(),
        p.wf(),
    ensures
        absent_of(t.names_seq(), p@.dom()).len() == 0 <==> t.names_set().subset_of(p@.dom()),
{
    lemma_absent_of_empty(t.names_seq(), p@.dom());
}

} // verus!
