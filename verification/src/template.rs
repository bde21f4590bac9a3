//! Placeholder discovery and substitution.
//!
//! A placeholder is `{{`, optional whitespace, a name made of bytes that are
//! neither whitespace nor `}`, optional whitespace, and `}}`. The scan runs
//! left to right and never revisits consumed text, so the recorded spans are
//! ordered and non-overlapping. Text that does not complete a placeholder is
//! ordinary literal text. A name may be empty: `{{}}` and `{{ }}` are
//! placeholders whose name is the empty byte string. Whitespace here is
//! ASCII whitespace.

use vstd::prelude::*;

verus! {

use crate::params::ParamMap;

/// The `{` byte.
pub const OPEN_BYTE: u8 = 0x7b;

/// The `}` byte.
pub const CLOSE_BYTE: u8 = 0x7d;

/// ASCII whitespace: space, tab, line feed, carriage return, vertical tab,
/// form feed.
pub open spec fn is_space(b: u8) -> bool {
    b == 0x20 || b == 0x09 || b == 0x0a || b == 0x0d || b == 0x0b || b == 0x0c
}

/// Whether a byte may appear in a placeholder name: anything except
/// whitespace and the closing delimiter byte.
pub open spec fn is_name_byte(b: u8) -> bool {
    !is_space(b) && b != CLOSE_BYTE
}

/// The first position at or after `i` whose byte is not whitespace, or the
/// end of the text.
pub open spec fn skip_spaces(s: Seq<u8>, i: int) -> int
    decreases s.len() - i,
{
    if 0 <= i < s.len() && is_space(s[i]) {
        skip_spaces(s, i + 1)
    } else {
        i
    }
}

/// The first position at or after `i` whose byte cannot belong to a
/// placeholder name, or the end of the text.
pub open spec fn skip_name(s: Seq<u8>, i: int) -> int
    decreases s.len() - i,
{
    if 0 <= i < s.len() && is_name_byte(s[i]) {
        skip_name(s, i + 1)
    } else {
        i
    }
}

pub proof fn lemma_skip_spaces_bounds(s: Seq<u8>, i: int)
    requires
        0 <= i <= s.len(),
    ensures
        i <= skip_spaces(s, i) <= s.len(),
    decreases s.len() - i,
{
    if i < s.len() && is_space(s[i]) {
        lemma_skip_spaces_bounds(s, i + 1);
    }
}

pub proof fn lemma_skip_name_bounds(s: Seq<u8>, i: int)
    requires
        0 <= i <= s.len(),
    ensures
        i <= skip_name(s, i) <= s.len(),
    decreases s.len() - i,
{
    if i < s.len() && is_name_byte(s[i]) {
        lemma_skip_name_bounds(s, i + 1);
    }
}

/// Where the name of a placeholder starting at `i` begins: just after the
/// opening delimiter and any whitespace.
pub open spec fn name_start(s: Seq<u8>, i: int) -> int {
    skip_spaces(s, i + 2)
}

/// Where the name of a placeholder starting at `i` ends.
pub open spec fn name_end(s: Seq<u8>, i: int) -> int {
    skip_name(s, name_start(s, i))
}

/// If a placeholder begins at position `i`, the position just after its
/// closing delimiter; `None` when no placeholder begins at `i`.
pub open spec fn match_end(s: Seq<u8>, i: int) -> Option<int>
    recommends
        0 <= i,
{
    if i + 2 <= s.len() && s[i] == OPEN_BYTE && s[i + 1] == OPEN_BYTE {
        let close = skip_spaces(s, name_end(s, i));
        if close + 2 <= s.len() && s[close] == CLOSE_BYTE && s[close + 1] == CLOSE_BYTE {
            Some(close + 2)
        } else {
            None
        }
    } else {
        None
    }
}

/// The name captured by a placeholder starting at `i`: the delimited text
/// stripped of the delimiters and of the surrounding whitespace.
pub open spec fn name_at(s: Seq<u8>, i: int) -> Seq<u8>
    recommends
        0 <= i,
        match_end(s, i) is Some,
{
    s.subrange(name_start(s, i), name_end(s, i))
}

pub proof fn lemma_match_end_bounds(s: Seq<u8>, i: int)
    requires
        0 <= i,
        match_end(s, i) is Some,
    ensures
        i + 2 <= name_start(s, i) <= name_end(s, i) <= match_end(s, i).unwrap() - 2,
        i + 4 <= match_end(s, i).unwrap() <= s.len(),
{
    lemma_skip_spaces_bounds(s, i + 2);
    lemma_skip_name_bounds(s, name_start(s, i));
    lemma_skip_spaces_bounds(s, name_end(s, i));
}

/// The placeholder spans of `s` at or after position `i`: leftmost first,
/// non-overlapping, scanning resuming immediately after each match.
pub open spec fn scan_from(s: Seq<u8>, i: int) -> Seq<(int, int)>
    decreases s.len() - i,
        when 0 <= i
        via scan_from_decreases
{
    if i >= s.len() {
        Seq::empty()
    } else {
        match match_end(s, i) {
            Some(e) => seq![(i, e)] + scan_from(s, e),
            None => scan_from(s, i + 1),
        }
    }
}

#[via_fn]
proof fn scan_from_decreases(s: Seq<u8>, i: int) {
    if i < s.len() && match_end(s, i) is Some {
        lemma_match_end_bounds(s, i);
    }
}

/// Spans that begin at or after `lo`, each a placeholder match, in order and
/// non-overlapping.
pub open spec fn spans_valid(s: Seq<u8>, spans: Seq<(int, int)>, lo: int) -> bool {
    &&& forall|k: int|
        0 <= k < spans.len() ==> lo <= (#[trigger] spans[k]).0 && match_end(s, spans[k].0)
            == Some(spans[k].1)
    &&& forall|k: int| 0 <= k && k + 1 < spans.len() ==> (#[trigger] spans[k]).1 <= spans[k + 1].0
}

pub proof fn lemma_scan_valid(s: Seq<u8>, i: int)
    requires
        0 <= i,
    ensures
        spans_valid(s, scan_from(s, i), i),
    decreases s.len() - i,
{
    if i >= s.len() {
    } else {
        match match_end(s, i) {
            Some(e) => {
                lemma_match_end_bounds(s, i);
                lemma_scan_valid(s, e);
                let head = seq![(i, e)];
                let tail = scan_from(s, e);
                let whole = scan_from(s, i);
                assert(whole == head + tail);
                assert forall|k: int| 1 <= k < whole.len() implies #[trigger] whole[k] == tail[k
                    - 1] by {
                    assert(whole[k] == (head + tail)[k]);
                }
                assert(whole[0] == (head + tail)[0]);
                assert(whole[0] == (i, e));
                assert forall|k: int|
                    0 <= k < whole.len() implies i <= (#[trigger] whole[k]).0 && match_end(
                    s,
                    whole[k].0,
                ) == Some(whole[k].1) by {
                    if k >= 1 {
                        assert(whole[k] == tail[k - 1]);
                    }
                }
                assert forall|k: int|
                    0 <= k && k + 1 < whole.len() implies (#[trigger] whole[k]).1 <= whole[k
                    + 1].0 by {
                    if k == 0 {
                        assert(whole[1] == tail[0]);
                    } else {
                        assert(whole[k] == tail[k - 1]);
                        assert(whole[k + 1] == tail[k]);
                    }
                }
            },
            None => {
                lemma_scan_valid(s, i + 1);
            },
        }
    }
}

/// The captured name of each span, in span order.
pub open spec fn token_seq(s: Seq<u8>, spans: Seq<(int, int)>) -> Seq<Seq<u8>> {
    spans.map_values(|sp: (int, int)| name_at(s, sp.0))
}

/// The distinct values of `ts`, each kept at its first occurrence.
pub open spec fn dedup(ts: Seq<Seq<u8>>) -> Seq<Seq<u8>>
    decreases ts.len(),
{
    if ts.len() == 0 {
        Seq::empty()
    } else {
        let pre = dedup(ts.drop_last());
        if pre.contains(ts.last()) {
            pre
        } else {
            pre.push(ts.last())
        }
    }
}

/// `dedup` keeps exactly the values of its input.
pub proof fn lemma_dedup_same_values(ts: Seq<Seq<u8>>)
    ensures
        forall|x: Seq<u8>| #[trigger] dedup(ts).contains(x) <==> ts.contains(x),
    decreases ts.len(),
{
    if ts.len() > 0 {
        let pre_ts = ts.drop_last();
        lemma_dedup_same_values(pre_ts);
        let pre = dedup(pre_ts);
        let l = ts.last();
        assert forall|x: Seq<u8>| ts.contains(x) implies #[trigger] dedup(ts).contains(x) by {
            let j = choose|j: int| 0 <= j < ts.len() && ts[j] == x;
            if j < ts.len() - 1 {
                assert(pre_ts[j] == x);
                assert(pre_ts.contains(x));
                assert(pre.contains(x));
                if !pre.contains(l) {
                    let k = choose|k: int| 0 <= k < pre.len() && pre[k] == x;
                    assert(pre.push(l)[k] == x);
                }
            } else {
                assert(x == l);
                if !pre.contains(l) {
                    assert(pre.push(l)[pre.len() as int] == l);
                }
            }
        }
        assert forall|x: Seq<u8>| #[trigger] dedup(ts).contains(x) implies ts.contains(x) by {
            if pre.contains(l) {
                assert(pre.contains(x));
            } else {
                let k = choose|k: int| 0 <= k < dedup(ts).len() && dedup(ts)[k] == x;
                if k < pre.len() {
                    assert(pre[k] == x);
                    assert(pre.contains(x));
                } else {
                    assert(x == l);
                }
            }
            if pre.contains(x) {
                assert(pre_ts.contains(x));
                let j = choose|j: int| 0 <= j < pre_ts.len() && pre_ts[j] == x;
                assert(ts[j] == x);
            } else {
                assert(x == l);
                assert(ts[ts.len() - 1] == x);
            }
            assert(ts.contains(x));
        }
    }
}

/// `dedup` never repeats a value.
pub proof fn lemma_dedup_distinct(ts: Seq<Seq<u8>>)
    ensures
        forall|j: int, k: int|
            0 <= j < k < dedup(ts).len() ==> #[trigger] dedup(ts)[j] != #[trigger] dedup(ts)[k],
    decreases ts.len(),
{
    if ts.len() > 0 {
        lemma_dedup_distinct(ts.drop_last());
        let pre = dedup(ts.drop_last());
        if !pre.contains(ts.last()) {
            assert forall|j: int, k: int|
                0 <= j < k < dedup(ts).len() implies #[trigger] dedup(ts)[j] != #[trigger] dedup(
                ts,
            )[k] by {
                if k == dedup(ts).len() - 1 {
                    assert(!pre.contains(dedup(ts)[k]));
                    assert(pre[j] == dedup(ts)[j]);
                }
            }
        }
    }
}

fn byte_is_space(b: u8) -> (r: bool)
    ensures
        r == is_space(b),
{
    b == 0x20 || b == 0x09 || b == 0x0a || b == 0x0d || b == 0x0b || b == 0x0c
}

fn byte_is_name(b: u8) -> (r: bool)
    ensures
        r == is_name_byte(b),
{
    !byte_is_space(b) && b != CLOSE_BYTE
}

fn skip_spaces_in(s: &Vec<u8>, from: usize) -> (r: usize)
    requires
        from <= s.len(),
    ensures
        from <= r <= s.len(),
        r == skip_spaces(s@, from as int),
{
    let mut j = from;
    while j < s.len() && byte_is_space(s[j])
        invariant
            from <= j <= s.len(),
            skip_spaces(s@, from as int) == skip_spaces(s@, j as int),
        decreases s.len() - j,
    {
        j += 1;
    }
    j
}

fn skip_name_in(s: &Vec<u8>, from: usize) -> (r: usize)
    requires
        from <= s.len(),
    ensures
        from <= r <= s.len(),
        r == skip_name(s@, from as int),
{
    let mut j = from;
    while j < s.len() && byte_is_name(s[j])
        invariant
            from <= j <= s.len(),
            skip_name(s@, from as int) == skip_name(s@, j as int),
        decreases s.len() - j,
    {
        j += 1;
    }
    j
}

/// Whether some element of `names` holds the same bytes as `x`.
pub(crate) fn contains_bytes(names: &Vec<Vec<u8>>, x: &Vec<u8>) -> (r: bool)
    ensures
        r == names.deep_view().contains(x@),
{
    let mut k: usize = 0;
    while k < names.len()
        invariant
            k <= names.len(),
            forall|j: int| 0 <= j < k ==> names.deep_view()[j] != x@,
        decreases names.len() - k,
    {
        if crate::bytes::bytes_eq(&names[k], x) {
            proof {
                assert(names.deep_view()[k as int] =~= x@);
            }
            return true;
        }
        proof {
            assert(names.deep_view()[k as int] =~= names@[k as int]@);
        }
        k += 1;
    }
    false
}

/// Attempts to match a placeholder starting at `i`. On success returns the
/// name's start, the name's end, and the position just after the closing
/// delimiter.
fn try_match(s: &Vec<u8>, i: usize) -> (r: Option<(usize, usize, usize)>)
    requires
        i < s.len(),
    ensures
        match r {
            Some(m) => {
                &&& match_end(s@, i as int) == Some(m.2 as int)
                &&& m.0 == name_start(s@, i as int)
                &&& m.1 == name_end(s@, i as int)
                &&& i + 2 <= m.0 <= m.1 <= m.2 - 2
                &&& m.2 <= s.len()
            },
            None => match_end(s@, i as int) is None,
        },
{
    if s.len() - i < 2 || s[i] != OPEN_BYTE || s[i + 1] != OPEN_BYTE {
        return None;
    }
    let lo = skip_spaces_in(s, i + 2);
    let hi = skip_name_in(s, lo);
    let close = skip_spaces_in(s, hi);
    if close < s.len() && close + 1 < s.len() && s[close] == CLOSE_BYTE && s[close + 1]
        == CLOSE_BYTE {
        Some((lo, hi, close + 2))
    } else {
        None
    }
}

/// The contribution of one placeholder occurrence to the rendered text: the
/// bound value when the occurrence's name has one, else the occurrence's
/// original text, delimiters included.
pub open spec fn piece(s: Seq<u8>, sp: (int, int), m: Map<Seq<u8>, Seq<u8>>) -> Seq<u8> {
    if m.dom().contains(name_at(s, sp.0)) {
        m[name_at(s, sp.0)]
    } else {
        s.subrange(sp.0, sp.1)
    }
}

/// The rendered text from position `from` on: the literal gap up to each
/// span, then the span's piece; after the last span, the rest of the text.
/// No part is reordered, skipped or repeated, and substituted values are not
/// scanned again.
pub open spec fn render_from(
    s: Seq<u8>,
    spans: Seq<(int, int)>,
    m: Map<Seq<u8>, Seq<u8>>,
    from: int,
) -> Seq<u8>
    decreases spans.len(),
{
    if spans.len() == 0 {
        s.subrange(from, s.len() as int)
    } else {
        s.subrange(from, spans[0].0) + piece(s, spans[0], m) + render_from(
            s,
            spans.subrange(1, spans.len() as int),
            m,
            spans[0].1,
        )
    }
}

/// The spans of a recorded match list as mathematical pairs.
pub open spec fn spans_of(ms: Seq<(usize, usize)>) -> Seq<(int, int)> {
    ms.map_values(|p: (usize, usize)| (p.0 as int, p.1 as int))
}

/// An immutable template: the source text, the placeholder spans the scan
/// found, and the distinct placeholder names in first-seen order.
pub struct Template {
    pub src: Vec<u8>,
    pub matches: Vec<(usize, usize)>,
    pub names: Vec<Vec<u8>>,
}

impl Template {
    /// The placeholder spans as mathematical pairs.
    pub open spec fn spans(&self) -> Seq<(int, int)> {
        spans_of(self.matches@)
    }

    /// The distinct placeholder names, in first-seen order.
    pub open spec fn names_seq(&self) -> Seq<Seq<u8>> {
        self.names.deep_view()
    }

    /// The set of placeholder names.
    pub open spec fn names_set(&self) -> Set<Seq<u8>> {
        self.names_seq().to_set()
    }

    /// Well-formedness: the spans are exactly what the scan of the source
    /// finds, and the names are exactly the distinct captured names.
    pub open spec fn wf(&self) -> bool {
        &&& self.spans() == scan_from(self.src@, 0)
        &&& self.names_seq() == dedup(token_seq(self.src@, self.spans()))
    }

    /// Scans the text once, left to right, recording every placeholder span
    /// and every distinct placeholder name. Never fails: text without a
    /// complete placeholder is kept as literal text.
    pub fn new(template: &Vec<u8>) -> (t: Template)
        ensures
            t.src@ == template@,
            t.wf(),
    {
        let ghost s = template@;
        let mut matches: Vec<(usize, usize)> = Vec::new();
        let mut names: Vec<Vec<u8>> = Vec::new();
        let mut i: usize = 0;
        while i < template.len()
            invariant
                i <= template.len(),
                s == template@,
                scan_from(s, 0) == spans_of(matches@) + scan_from(s, i as int),
                names.deep_view() == dedup(token_seq(s, spans_of(matches@))),
            decreases template.len() - i,
        {
            let ghost old_matches = matches@;
            let ghost old_dv = names.deep_view();
            match try_match(template, i) {
                Some((lo, hi, e)) => {
                    let name = crate::bytes::copy_range(template, lo, hi);
                    proof {
                        assert(name@ == name_at(s, i as int));
                    }
                    if !contains_bytes(&names, &name) {
                        names.push(name);
                        proof {
                            assert(names.deep_view() =~~= old_dv.push(name@));
                        }
                    }
                    matches.push((i, e));
                    proof {
                        let sp = (i as int, e as int);
                        let done = spans_of(old_matches);
                        assert(spans_of(matches@) =~= done.push(sp));
                        assert(done.push(sp) =~= done + seq![sp]);
                        assert(scan_from(s, i as int) == seq![sp] + scan_from(s, e as int));
                        assert(scan_from(s, 0) =~= spans_of(matches@) + scan_from(s, e as int));
                        let ts = token_seq(s, done);
                        let ts2 = token_seq(s, spans_of(matches@));
                        assert(ts2.drop_last() =~~= ts);
                        assert(ts2.last() == name_at(s, sp.0));
                        assert(dedup(ts2) == if dedup(ts).contains(name@) {
                            dedup(ts)
                        } else {
                            dedup(ts).push(name@)
                        });
                    }
                    i = e;
                },
                None => {
                    proof {
                        assert(scan_from(s, i as int) == scan_from(s, i as int + 1));
                    }
                    i += 1;
                },
            }
        }
        proof {
            assert(scan_from(s, i as int) =~= Seq::<(int, int)>::empty());
            assert(spans_of(matches@) + scan_from(s, i as int) =~= spans_of(matches@));
            assert(s.subrange(0, s.len() as int) =~= s);
        }
        Template { src: crate::bytes::copy_range(template, 0, template.len()), matches, names }
    }

    /// Rebuilds the text with substitutions applied: each placeholder whose
    /// name is bound in `vals` becomes the bound value, verbatim and without
    /// rescanning; every other placeholder and all the text between
    /// placeholders pass through unchanged. Total: it never fails, whatever
    /// the validation outcome.
    pub fn render(&self, vals: &ParamMap) -> (out: Vec<u8>)
        requires
            self.wf(),
            vals.wf(),
        ensures
            out@ == render_from(self.src@, self.spans(), vals@, 0),
    {
        let ghost s = self.src@;
        let ghost spans = self.spans();
        let ghost m = vals@;
        proof {
            lemma_scan_valid(s, 0);
            assert(spans.subrange(0, spans.len() as int) =~= spans);
            assert(Seq::<u8>::empty() + render_from(s, spans, m, 0) =~= render_from(
                s,
                spans,
                m,
                0,
            ));
        }
        let mut out: Vec<u8> = Vec::new();
        let mut cursor: usize = 0;
        let mut k: usize = 0;
        while k < self.matches.len()
            invariant
                self.wf(),
                vals.wf(),
                s == self.src@,
                spans == self.spans(),
                m == vals@,
                spans_valid(s, spans, 0),
                k <= spans.len(),
                cursor <= s.len(),
                k < spans.len() ==> cursor <= spans[k as int].0,
                render_from(s, spans, m, 0) == out@ + render_from(
                    s,
                    spans.subrange(k as int, spans.len() as int),
                    m,
                    cursor as int,
                ),
            decreases spans.len() - k,
        {
            let ghost out0 = out@;
            let (st, en) = self.matches[k];
            proof {
                assert(spans[k as int] == (st as int, en as int));
                assert(match_end(s, st as int) == Some(en as int));
                lemma_match_end_bounds(s, st as int);
            }
            crate::bytes::push_range(&mut out, &self.src, cursor, st);
            let lo = skip_spaces_in(&self.src, st + 2);
            let hi = skip_name_in(&self.src, lo);
            let name = crate::bytes::copy_range(&self.src, lo, hi);
            proof {
                assert(name@ == name_at(s, st as int));
            }
            match vals.get(&name) {
                Some(v) => {
                    crate::bytes::push_all(&mut out, v);
                    proof {
                        assert(piece(s, spans[k as int], m) == v@);
                    }
                },
                None => {
                    crate::bytes::push_range(&mut out, &self.src, st, en);
                    proof {
                        assert(piece(s, spans[k as int], m) == s.subrange(st as int, en as int));
                    }
                },
            }
            proof {
                let tail = spans.subrange(k as int, spans.len() as int);
                assert(tail[0] == spans[k as int]);
                assert(tail.subrange(1, tail.len() as int) =~= spans.subrange(
                    k as int + 1,
                    spans.len() as int,
                ));
                assert(render_from(s, tail, m, cursor as int) == s.subrange(
                    cursor as int,
                    st as int,
                ) + piece(s, spans[k as int], m) + render_from(
                    s,
                    spans.subrange(k as int + 1, spans.len() as int),
                    m,
                    en as int,
                ));
                assert(out@ =~= out0 + s.subrange(cursor as int, st as int) + piece(
                    s,
                    spans[k as int],
                    m,
                ));
                assert(render_from(s, spans, m, 0) =~= out@ + render_from(
                    s,
                    spans.subrange(k as int + 1, spans.len() as int),
                    m,
                    en as int,
                ));
            }
            cursor = en;
            k += 1;
        }
        proof {
            assert(spans.subrange(k as int, spans.len() as int) =~= Seq::<(int, int)>::empty());
        }
        crate::bytes::push_range(&mut out, &self.src, cursor, self.src.len());
        out
    }
}

} // verus!
