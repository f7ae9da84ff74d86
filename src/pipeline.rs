use vstd::prelude::*;
use vstd::string::*;
use vstd::utf8::*;
use crate::detect::{detect_emails, detect_files, regex_matches, span_entities, spans_fit, EMAIL_PATTERN, FILE_PATTERN};
use crate::entity::{all_satisfy, email_tag, file_tag, fits, is_known_tag, name_tag, views, EntityView};
use crate::names::{detect_names, lemma_names_entities_fit, lemma_names_entities_named, names_entities, strs};
use crate::reconcile::{disjoint_ascending, drop_overlaps, insert_by_start, reconcile, reconciled, sort_by_start};
use crate::rewrite::{layout_ok, redacted_bytes, rewrite};

verus! {

broadcast use vstd::seq_lib::group_seq_properties;

/// The entities of the pattern detectors: e-mail addresses, then file paths.
pub open spec fn pattern_entities(text: &str) -> Seq<EntityView> {
    span_entities(text.spec_bytes(), regex_matches(EMAIL_PATTERN@, text@), email_tag())
        + span_entities(text.spec_bytes(), regex_matches(FILE_PATTERN@, text@), file_tag())
}

/// Everything detected in `text`: the pattern entities, then, when the name
/// service answered, the entities of the names it suggested.
pub open spec fn detected(text: &str, names: Result<Vec<String>, String>) -> Seq<EntityView> {
    match names {
        Ok(ns) => pattern_entities(text) + names_entities(text.spec_bytes(), strs(ns@)),
        Err(_) => pattern_entities(text),
    }
}

proof fn lemma_all_drop_last(s: Seq<EntityView>, p: spec_fn(EntityView) -> bool)
    requires
        all_satisfy(s, p),
        s.len() > 0,
    ensures
        all_satisfy(s.drop_last(), p),
        p(s.last()),
{
    assert forall|i: int| 0 <= i < s.len() - 1 implies p(#[trigger] s.drop_last()[i]) by {
        assert(s.drop_last()[i] == s[i]);
    }
    assert(p(s[s.len() - 1]));
}

proof fn lemma_insert_keeps(s: Seq<EntityView>, x: EntityView, p: spec_fn(EntityView) -> bool)
    requires
        all_satisfy(s, p),
        p(x),
    ensures
        all_satisfy(insert_by_start(s, x), p),
    decreases s.len(),
{
    if s.len() > 0 && s.last().start > x.start {
        lemma_all_drop_last(s, p);
        lemma_insert_keeps(s.drop_last(), x, p);
    }
}

proof fn lemma_sort_keeps(s: Seq<EntityView>, p: spec_fn(EntityView) -> bool)
    requires
        all_satisfy(s, p),
    ensures
        all_satisfy(sort_by_start(s), p),
    decreases s.len(),
{
    if s.len() > 0 {
        lemma_all_drop_last(s, p);
        lemma_sort_keeps(s.drop_last(), p);
        lemma_insert_keeps(sort_by_start(s.drop_last()), s.last(), p);
    }
}

proof fn lemma_drop_overlaps_keeps(s: Seq<EntityView>, p: spec_fn(EntityView) -> bool)
    requires
        all_satisfy(s, p),
    ensures
        all_satisfy(drop_overlaps(s), p),
    decreases s.len(),
{
    if s.len() > 0 {
        lemma_all_drop_last(s, p);
        lemma_drop_overlaps_keeps(s.drop_last(), p);
    }
}

/// Reconciliation only drops entities: what holds of every detected entity
/// holds of every kept one.
pub proof fn lemma_reconciled_keeps(s: Seq<EntityView>, p: spec_fn(EntityView) -> bool)
    requires
        all_satisfy(s, p),
    ensures
        all_satisfy(reconciled(s), p),
{
    lemma_sort_keeps(s, p);
    lemma_drop_overlaps_keeps(sort_by_start(s), p);
}

/// Every entity of `s` lies inside `t` on character boundaries.
pub open spec fn all_fit(t: Seq<u8>, s: Seq<EntityView>) -> bool {
    all_satisfy(s, |e: EntityView| fits(t, e))
}

/// When every detected entity lies inside the text on character boundaries,
/// the reconciled set is well placed for the rewrite.
pub proof fn lemma_reconciled_layout(t: Seq<u8>, s: Seq<EntityView>)
    requires
        all_fit(t, s),
    ensures
        layout_ok(t, reconciled(s)),
{
    lemma_reconciled_keeps(s, |e: EntityView| fits(t, e));
    crate::reconcile::lemma_reconciled_disjoint(s);
    let r = reconciled(s);
    assert forall|i: int| 0 < i < r.len() implies r[i - 1].end <= #[trigger] r[i].start by {
        assert(disjoint_ascending(r));
        assert(r[i - 1].end <= r[i].start);
    }
    assert forall|i: int| 0 <= i < r.len() implies {
        &&& 0 <= #[trigger] r[i].start <= r[i].end <= t.len()
        &&& is_char_boundary(t, r[i].start)
        &&& is_char_boundary(t, r[i].end)
    } by {
        assert((|e: EntityView| fits(t, e))(r[i]));
    }
}

proof fn lemma_span_entities_fit(t: Seq<u8>, spans: Seq<(usize, usize)>, kind: Seq<char>)
    requires
        spans_fit(t, spans),
    ensures
        all_fit(t, span_entities(t, spans, kind)),
{
    let es = span_entities(t, spans, kind);
    assert forall|i: int| 0 <= i < es.len() implies (|e: EntityView| fits(t, e))(#[trigger] es[i]) by {
        assert(spans[i].0 <= spans[i].1);
    }
}

/// Law: every span that `redact` replaces becomes `[REDACTED-<type>]` (see
/// `redacted_bytes`) with `<type>` one of `email`, `file` and `name`.
pub proof fn lemma_placeholder_tags_known(text: &str, names: Result<Vec<String>, String>)
    ensures
        forall|i: int|
            0 <= i < reconciled(detected(text, names)).len() ==> is_known_tag(
                #[trigger] reconciled(detected(text, names))[i].kind,
            ),
{
    let known = |e: EntityView| is_known_tag(e.kind);
    let t = text.spec_bytes();
    let e = span_entities(t, regex_matches(EMAIL_PATTERN@, text@), email_tag());
    let f = span_entities(t, regex_matches(FILE_PATTERN@, text@), file_tag());
    let all = detected(text, names);
    assert forall|i: int| 0 <= i < all.len() implies known(#[trigger] all[i]) by {
        if i < e.len() {
            assert(all[i] == e[i]);
        } else if i < e.len() + f.len() {
            assert(all[i] == f[i - e.len()]);
        } else {
            let ns = strs(names.unwrap()@);
            lemma_names_entities_named(t, ns);
            let m = names_entities(t, ns);
            assert(all[i] == m[i - e.len() - f.len()]);
            assert(m[i - e.len() - f.len()].kind == name_tag());
        }
    }
    lemma_reconciled_keeps(all, known);
    assert forall|i: int| 0 <= i < reconciled(all).len() implies is_known_tag(
        #[trigger] reconciled(all)[i].kind,
    ) by {
        assert(known(reconciled(all)[i]));
    }
}

/// Redacts `text` given the outcome of the name service: `Ok` with the names
/// it suggested, or `Err` when it could not be reached or answered nonsense,
/// in which case only the pattern detectors count. The detected entities are
/// reconciled and each kept span is replaced by `[REDACTED-<type>]`. Every
/// detected span fits the text, so the result is always `Ok`.
pub fn redact(text: &str, names: Result<Vec<String>, String>) -> (r: Result<String, String>)
    ensures
        r.is_ok(),
        encode_utf8(r.unwrap()@) == redacted_bytes(
            text.spec_bytes(),
            reconciled(detected(text, names)),
        ),
        reconciled(detected(text, names)).len() == 0 ==> r.unwrap()@ == text@,
{
    let ghost t = text.spec_bytes();
    let mut entities = detect_emails(text);
    let mut files = detect_files(text);
    let ghost pattern = views(entities@) + views(files@);
    entities.append(&mut files);
    assert(views(entities@) =~= pattern);
    proof {
        lemma_span_entities_fit(t, regex_matches(EMAIL_PATTERN@, text@), email_tag());
        lemma_span_entities_fit(t, regex_matches(FILE_PATTERN@, text@), file_tag());
        let e = span_entities(t, regex_matches(EMAIL_PATTERN@, text@), email_tag());
        let f = span_entities(t, regex_matches(FILE_PATTERN@, text@), file_tag());
        assert forall|i: int| 0 <= i < pattern.len() implies (|e: EntityView| fits(t, e))(#[trigger] pattern[i]) by {
            if i < e.len() {
                assert(pattern[i] == e[i]);
            } else {
                assert(pattern[i] == f[i - e.len()]);
            }
        }
    }
    match &names {
        Ok(ns) => {
            let mut found = detect_names(text, ns);
            let ghost before = views(entities@);
            entities.append(&mut found);
            assert(views(entities@) =~= before + names_entities(t, strs(ns@)));
        },
        Err(_) => {},
    }
    let ghost all = views(entities@);
    assert(all == detected(text, names));
    let kept = reconcile(entities);
    proof {
        encode_utf8_valid_utf8(text@);
        if let Ok(ns) = names {
            let p = pattern;
            let m = names_entities(t, strs(ns@));
            lemma_names_entities_fit(t, strs(ns@));
            assert forall|i: int| 0 <= i < all.len() implies (|e: EntityView| fits(t, e))(#[trigger] all[i]) by {
                if i < p.len() {
                    assert(all[i] == p[i]);
                } else {
                    assert(all[i] == m[i - p.len()]);
                }
            }
        }
        lemma_reconciled_layout(t, all);
    }
    let r = rewrite(text, &kept);
    proof {
        if reconciled(all).len() == 0 {
            encode_utf8_valid_utf8(text@);
            encode_utf8_decode_utf8(text@);
            encode_utf8_decode_utf8(r.unwrap()@);
        }
    }
    r
}

} // verus!
