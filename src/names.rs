use vstd::prelude::*;
use vstd::string::*;
use vstd::utf8::*;
use crate::entity::{all_satisfy, fits, name_tag, views, EntityView, PiiEntity};
use crate::rewrite::lemma_boundary_shift;

verus! {

broadcast use vstd::seq_lib::group_seq_properties;

/// The whitespace-separated words of `s`, in order.
pub uninterp spec fn whitespace_words(s: Seq<char>) -> Seq<Seq<char>>;

/// The character sequences of a list of strings.
pub open spec fn strs(v: Seq<String>) -> Seq<Seq<char>> {
    v.map_values(|s: String| s@)
}

/// `p` occurs in `t` at byte offset `i`.
pub open spec fn occurs_at(t: Seq<u8>, p: Seq<u8>, i: int) -> bool {
    0 <= i && i + p.len() <= t.len() && t.subrange(i, i + p.len()) == p
}

/// The offsets of the non-overlapping occurrences of a non-empty `p` in `t`
/// found by a left-to-right scan that starts at `from`.
pub open spec fn occurrences(t: Seq<u8>, p: Seq<u8>, from: int) -> Seq<int>
    decreases t.len() - from,
{
    if p.len() == 0 || from < 0 || from + p.len() > t.len() {
        seq![]
    } else if occurs_at(t, p, from) {
        seq![from] + occurrences(t, p, from + p.len())
    } else {
        occurrences(t, p, from + 1)
    }
}

/// One `"name"` entity for each offset in `at`, covering `len` bytes.
pub open spec fn found_entities(at: Seq<int>, len: int, word: Seq<char>) -> Seq<EntityView> {
    at.map_values(|i: int| EntityView { kind: name_tag(), start: i, end: i + len, original: word })
}

/// A `"name"` entity for every literal occurrence of `w` in `t`.
pub open spec fn word_entities(t: Seq<u8>, w: Seq<char>) -> Seq<EntityView> {
    found_entities(occurrences(t, encode_utf8(w), 0), encode_utf8(w).len() as int, w)
}

/// The entities of each word of `ws`, one word after the other.
pub open spec fn words_entities(t: Seq<u8>, ws: Seq<Seq<char>>) -> Seq<EntityView>
    decreases ws.len(),
{
    if ws.len() == 0 {
        seq![]
    } else {
        words_entities(t, ws.drop_last()) + word_entities(t, ws.last())
    }
}

/// The entities of one suggested name: its literal occurrences; where there
/// are none and the name has several words, the occurrences of each word.
pub open spec fn name_entities(t: Seq<u8>, n: Seq<char>) -> Seq<EntityView> {
    if n.len() == 0 {
        seq![]
    } else if occurrences(t, encode_utf8(n), 0).len() > 0 {
        word_entities(t, n)
    } else if whitespace_words(n).len() > 1 {
        words_entities(t, whitespace_words(n))
    } else {
        seq![]
    }
}

/// The entities of each suggested name, one name after the other.
pub open spec fn names_entities(t: Seq<u8>, ns: Seq<Seq<char>>) -> Seq<EntityView>
    decreases ns.len(),
{
    if ns.len() == 0 {
        seq![]
    } else {
        names_entities(t, ns.drop_last()) + name_entities(t, ns.last())
    }
}

/// A valid encoding that begins a valid encoding ends on a boundary of it.
proof fn lemma_prefix_boundary(s: Seq<u8>, p: Seq<u8>)
    requires
        valid_utf8(s),
        valid_utf8(p),
        p.len() <= s.len(),
        s.subrange(0, p.len() as int) == p,
    ensures
        is_char_boundary(s, p.len() as int),
    decreases p.len(),
{
    if p.len() > 0 {
        assert(s[0] == s.subrange(0, p.len() as int)[0]);
        let w = length_of_first_scalar(p);
        assert(length_of_first_scalar(s) == w);
        let ps = pop_first_scalar(p);
        let ss = pop_first_scalar(s);
        assert(ss.subrange(0, ps.len() as int) =~= ps) by {
            assert forall|k: int| 0 <= k < ps.len() implies ss[k] == ps[k] by {
                assert(s.subrange(0, p.len() as int)[w + k] == p[w + k]);
            }
        }
        lemma_prefix_boundary(ss, ps);
    }
}

/// A literal occurrence of a valid encoding in a valid encoding starts and
/// ends on character boundaries.
proof fn lemma_occurrence_on_boundaries(t: Seq<u8>, p: Seq<u8>, i: int)
    requires
        valid_utf8(t),
        valid_utf8(p),
        p.len() > 0,
        occurs_at(t, p, i),
    ensures
        is_char_boundary(t, i),
        is_char_boundary(t, i + p.len()),
{
    assert(t[i] == t.subrange(i, i + p.len())[0]);
    assert(is_char_boundary(p, 0));
    is_char_boundary_iff_not_is_continuation_byte(p, 0);
    is_char_boundary_iff_not_is_continuation_byte(t, i);
    let s = t.subrange(i, t.len() as int);
    valid_utf8_split(t, i);
    assert(s.subrange(0, p.len() as int) =~= t.subrange(i, i + p.len()));
    lemma_prefix_boundary(s, p);
    lemma_boundary_shift(t, i, p.len() as int);
}

/// Every offset that the scan reports is an occurrence.
proof fn lemma_occurrences_occur(t: Seq<u8>, p: Seq<u8>, from: int)
    ensures
        forall|k: int|
            0 <= k < occurrences(t, p, from).len() ==> occurs_at(
                t,
                p,
                #[trigger] occurrences(t, p, from)[k],
            ),
    decreases t.len() - from,
{
    if p.len() == 0 || from < 0 || from + p.len() > t.len() {
    } else if occurs_at(t, p, from) {
        lemma_occurrences_occur(t, p, from + p.len());
        let rest = occurrences(t, p, from + p.len());
        assert(occurrences(t, p, from) == seq![from] + rest);
        assert forall|k: int| 0 <= k < occurrences(t, p, from).len() implies occurs_at(
            t,
            p,
            #[trigger] occurrences(t, p, from)[k],
        ) by {
            if k > 0 {
                assert(occurrences(t, p, from)[k] == rest[k - 1]);
            }
        }
    } else {
        lemma_occurrences_occur(t, p, from + 1);
        assert(occurrences(t, p, from) == occurrences(t, p, from + 1));
    }
}

/// The entities of a word lie inside the text on character boundaries.
proof fn lemma_word_entities_fit(t: Seq<u8>, w: Seq<char>)
    requires
        valid_utf8(t),
    ensures
        all_satisfy(word_entities(t, w), |e: EntityView| fits(t, e)),
{
    let p = encode_utf8(w);
    encode_utf8_valid_utf8(w);
    lemma_occurrences_occur(t, p, 0);
    let es = word_entities(t, w);
    assert forall|i: int| 0 <= i < es.len() implies (|e: EntityView| fits(t, e))(#[trigger] es[i]) by {
        let at = occurrences(t, p, 0)[i];
        assert(occurs_at(t, p, at));
        lemma_occurrence_on_boundaries(t, p, at);
    }
}

proof fn lemma_concat_fit(t: Seq<u8>, a: Seq<EntityView>, b: Seq<EntityView>)
    requires
        all_satisfy(a, |e: EntityView| fits(t, e)),
        all_satisfy(b, |e: EntityView| fits(t, e)),
    ensures
        all_satisfy(a + b, |e: EntityView| fits(t, e)),
{
    assert forall|i: int| 0 <= i < (a + b).len() implies (|e: EntityView| fits(t, e))(#[trigger] (a
        + b)[i]) by {
        if i < a.len() {
            assert((a + b)[i] == a[i]);
        } else {
            assert((a + b)[i] == b[i - a.len()]);
        }
    }
}

proof fn lemma_words_entities_fit(t: Seq<u8>, ws: Seq<Seq<char>>)
    requires
        valid_utf8(t),
    ensures
        all_satisfy(words_entities(t, ws), |e: EntityView| fits(t, e)),
    decreases ws.len(),
{
    if ws.len() > 0 {
        lemma_words_entities_fit(t, ws.drop_last());
        lemma_word_entities_fit(t, ws.last());
        lemma_concat_fit(t, words_entities(t, ws.drop_last()), word_entities(t, ws.last()));
    }
}

/// The entities located for suggested names lie inside the text on character
/// boundaries.
pub proof fn lemma_names_entities_fit(t: Seq<u8>, ns: Seq<Seq<char>>)
    requires
        valid_utf8(t),
    ensures
        all_satisfy(names_entities(t, ns), |e: EntityView| fits(t, e)),
    decreases ns.len(),
{
    if ns.len() > 0 {
        let n = ns.last();
        lemma_names_entities_fit(t, ns.drop_last());
        lemma_word_entities_fit(t, n);
        lemma_words_entities_fit(t, whitespace_words(n));
        assert(all_satisfy(Seq::<EntityView>::empty(), |e: EntityView| fits(t, e)));
        lemma_concat_fit(t, names_entities(t, ns.drop_last()), name_entities(t, n));
    }
}

/// Every entity of `words_entities` is a `"name"` entity.
proof fn lemma_words_entities_named(t: Seq<u8>, ws: Seq<Seq<char>>)
    ensures
        forall|i: int|
            0 <= i < words_entities(t, ws).len() ==> (#[trigger] words_entities(t, ws)[i]).kind
                == name_tag(),
    decreases ws.len(),
{
    if ws.len() > 0 {
        lemma_words_entities_named(t, ws.drop_last());
        let a = words_entities(t, ws.drop_last());
        let b = word_entities(t, ws.last());
        assert forall|i: int| 0 <= i < words_entities(t, ws).len() implies (#[trigger] words_entities(
            t,
            ws,
        )[i]).kind == name_tag() by {
            if i >= a.len() {
                assert(words_entities(t, ws)[i] == b[i - a.len()]);
            } else {
                assert(words_entities(t, ws)[i] == a[i]);
            }
        }
    }
}

/// Every entity located for suggested names is a `"name"` entity.
pub proof fn lemma_names_entities_named(t: Seq<u8>, ns: Seq<Seq<char>>)
    ensures
        forall|i: int|
            0 <= i < names_entities(t, ns).len() ==> (#[trigger] names_entities(t, ns)[i]).kind
                == name_tag(),
    decreases ns.len(),
{
    if ns.len() > 0 {
        lemma_names_entities_named(t, ns.drop_last());
        let n = ns.last();
        lemma_words_entities_named(t, whitespace_words(n));
        let a = names_entities(t, ns.drop_last());
        let b = name_entities(t, n);
        assert forall|i: int| 0 <= i < names_entities(t, ns).len() implies (#[trigger] names_entities(
            t,
            ns,
        )[i]).kind == name_tag() by {
            if i >= a.len() {
                assert(names_entities(t, ns)[i] == b[i - a.len()]);
            } else {
                assert(names_entities(t, ns)[i] == a[i]);
            }
        }
    }
}

/// The entities of the `k`-th word appear, in order, inside those of all words.
proof fn lemma_words_entities_include(t: Seq<u8>, ws: Seq<Seq<char>>, k: int)
    requires
        0 <= k < ws.len(),
    ensures
        exists|off: int|
            0 <= off && off + word_entities(t, ws[k]).len() <= words_entities(t, ws).len()
                && #[trigger] words_entities(t, ws).subrange(off, off + word_entities(t, ws[k]).len())
                == word_entities(t, ws[k]),
    decreases ws.len(),
{
    let a = words_entities(t, ws.drop_last());
    let w = word_entities(t, ws[k]);
    if k == ws.len() - 1 {
        assert(words_entities(t, ws).subrange(a.len() as int, (a.len() + w.len()) as int) =~= w);
    } else {
        lemma_words_entities_include(t, ws.drop_last(), k);
        assert(ws.drop_last()[k] == ws[k]);
        let off = choose|off: int|
            0 <= off && off + w.len() <= a.len() && #[trigger] a.subrange(off, off + w.len()) == w;
        assert(words_entities(t, ws).subrange(off, off + w.len()) =~= a.subrange(off, off + w.len()));
    }
}

/// Law: when a multi-word name never occurs literally in the text, each of its
/// words that does occur is redacted on its own: its first occurrence becomes
/// a `"name"` entity holding that word.
pub proof fn lemma_fallback_words(t: Seq<u8>, n: Seq<char>, k: int)
    requires
        n.len() > 0,
        occurrences(t, encode_utf8(n), 0).len() == 0,
        whitespace_words(n).len() > 1,
        0 <= k < whitespace_words(n).len(),
        occurrences(t, encode_utf8(whitespace_words(n)[k]), 0).len() > 0,
    ensures
        exists|j: int|
            0 <= j < name_entities(t, n).len() && #[trigger] name_entities(t, n)[j] == (EntityView {
                kind: name_tag(),
                start: occurrences(t, encode_utf8(whitespace_words(n)[k]), 0)[0],
                end: occurrences(t, encode_utf8(whitespace_words(n)[k]), 0)[0] + encode_utf8(
                    whitespace_words(n)[k],
                ).len(),
                original: whitespace_words(n)[k],
            }),
{
    let ws = whitespace_words(n);
    let w = word_entities(t, ws[k]);
    lemma_words_entities_include(t, ws, k);
    let all = words_entities(t, ws);
    let off = choose|off: int|
        0 <= off && off + w.len() <= all.len() && #[trigger] all.subrange(off, off + w.len()) == w;
    assert(all.subrange(off, off + w.len())[0] == all[off]);
    assert(name_entities(t, n)[off] == w[0]);
}

/// Relies on `str::split_whitespace`: the words depend on the text alone.
#[verifier::external_body]
fn split_words(s: &str) -> (r: Vec<String>)
    ensures
        strs(r@) == whitespace_words(s@),
{
    s.split_whitespace().map(|w| w.to_string()).collect()
}

/// Whether `p` occurs in `t` at byte offset `at`.
fn matches_at(t: &[u8], p: &[u8], at: usize) -> (r: bool)
    requires
        at + p@.len() <= t@.len(),
    ensures
        r == occurs_at(t@, p@, at as int),
{
    let n = t.len();
    let mut j: usize = 0;
    while j < p.len()
        invariant
            n == t@.len(),
            j <= p@.len(),
            at + p@.len() <= t@.len(),
            forall|k: int| 0 <= k < j ==> t@[at + k] == p@[k],
        decreases p@.len() - j,
    {
        if t[at + j] != p[j] {
            assert(t@.subrange(at as int, at + p@.len())[j as int] != p@[j as int]);
            return false;
        }
        j = j + 1;
    }
    assert(t@.subrange(at as int, at + p@.len()) =~= p@);
    true
}

/// Appends a `"name"` entity for every literal occurrence of `word` in `text`,
/// scanning left to right without overlap; tells whether there was any.
fn push_occurrences(text: &str, word: &str, out: &mut Vec<PiiEntity>) -> (found: bool)
    ensures
        views(final(out)@) == views(old(out)@) + word_entities(text.spec_bytes(), word@),
        found == (occurrences(text.spec_bytes(), word.spec_bytes(), 0).len() > 0),
{
    let t = text.as_bytes();
    let p = word.as_bytes();
    let ghost tb = t@;
    let ghost pb = p@;
    let ghost base = views(out@);
    let ghost all = occurrences(tb, pb, 0);
    let ghost done: Seq<int> = seq![];
    if p.len() == 0 {
        assert(found_entities(all, 0, word@) =~= seq![]);
        assert(views(out@) =~= base + seq![]);
        return false;
    }
    let mut found = false;
    let mut pos: usize = 0;
    let n = t.len();
    while p.len() <= n && pos <= n - p.len()
        invariant
            n == t@.len(),
            tb == t@,
            pb == p@,
            pb.len() > 0,
            base == views(old(out)@),
            all == occurrences(tb, pb, 0),
            done + occurrences(tb, pb, pos as int) == all,
            views(out@) == base + found_entities(done, pb.len() as int, word@),
            found == (done.len() > 0),
        decreases t@.len() - pos,
    {
        if matches_at(t, p, pos) {
            let ent = PiiEntity::new("name".to_owned(), pos, pos + p.len(), word.to_owned());
            proof {
                reveal_strlit("name");
                assert("name"@ =~= name_tag());
            }
            let ghost prev = out@;
            out.push(ent);
            proof {
                assert(occurrences(tb, pb, pos as int) == seq![pos as int] + occurrences(tb, pb, pos + pb.len()));
                assert(done + seq![pos as int] + occurrences(tb, pb, pos + pb.len()) =~= all);
                assert(views(prev).len() == prev.len());
                assert(views(out@) =~= views(prev).push(ent@));
                done = done + seq![pos as int];
                assert(found_entities(done, pb.len() as int, word@) =~= found_entities(done.drop_last(), pb.len() as int, word@).push(ent@));
            }
            found = true;
            pos = pos + p.len();
        } else {
            pos = pos + 1;
        }
    }
    assert(occurrences(tb, pb, pos as int) =~= Seq::<int>::empty());
    assert(done =~= all);
    found
}

/// A `"name"` entity for every literal occurrence of each word, one word after
/// the other.
pub fn locate_words(text: &str, words: &Vec<String>) -> (r: Vec<PiiEntity>)
    ensures
        views(r@) == words_entities(text.spec_bytes(), strs(words@)),
{
    let ghost t = text.spec_bytes();
    let ghost ws = strs(words@);
    let mut r: Vec<PiiEntity> = Vec::new();
    let mut i: usize = 0;
    while i < words.len()
        invariant
            i <= words@.len(),
            t == text.spec_bytes(),
            ws == strs(words@),
            views(r@) == words_entities(t, ws.subrange(0, i as int)),
        decreases words@.len() - i,
    {
        push_occurrences(text, words[i].as_str(), &mut r);
        proof {
            assert(ws.subrange(0, i + 1).drop_last() =~= ws.subrange(0, i as int));
            assert(ws[i as int] == words@[i as int]@);
        }
        i = i + 1;
    }
    assert(ws.subrange(0, i as int) =~= ws);
    r
}

/// The entities of one suggested name (see `name_entities`).
pub fn locate_name(text: &str, name: &str) -> (r: Vec<PiiEntity>)
    ensures
        views(r@) == name_entities(text.spec_bytes(), name@),
{
    let mut r: Vec<PiiEntity> = Vec::new();
    if name.is_empty() {
        return r;
    }
    let found = push_occurrences(text, name, &mut r);
    assert(views(r@) =~= seq![] + word_entities(text.spec_bytes(), name@));
    if found {
        return r;
    }
    let words = split_words(name);
    if words.len() > 1 {
        locate_words(text, &words)
    } else {
        Vec::new()
    }
}

/// Locates every suggested name in `text`: for each name, in order, the
/// entities that `locate_name` gives.
pub fn detect_names(text: &str, names: &Vec<String>) -> (r: Vec<PiiEntity>)
    ensures
        views(r@) == names_entities(text.spec_bytes(), strs(names@)),
{
    let ghost t = text.spec_bytes();
    let ghost ns = strs(names@);
    let mut r: Vec<PiiEntity> = Vec::new();
    let mut i: usize = 0;
    while i < names.len()
        invariant
            i <= names@.len(),
            t == text.spec_bytes(),
            ns == strs(names@),
            views(r@) == names_entities(t, ns.subrange(0, i as int)),
        decreases names@.len() - i,
    {
        let mut found = locate_name(text, names[i].as_str());
        let ghost prev = views(r@);
        r.append(&mut found);
        proof {
            assert(ns.subrange(0, i + 1).drop_last() =~= ns.subrange(0, i as int));
            assert(ns[i as int] == names@[i as int]@);
            assert(views(r@) =~= prev + name_entities(t, ns[i as int]));
        }
        i = i + 1;
    }
    assert(ns.subrange(0, i as int) =~= ns);
    r
}

/// The text that carries the suggested names in a reply of the inference
/// service: the primary field when it is not empty, else the alternate field,
/// else nothing.
pub fn select_payload(response: String, thinking: Option<String>) -> (r: String)
    ensures
        r@ == if response@.len() > 0 {
            response@
        } else {
            match thinking {
                Some(s) => s@,
                None => Seq::<char>::empty(),
            }
        },
{
    if !response.as_str().is_empty() {
        response
    } else {
        match thinking {
            Some(s) => s,
            None => String::new(),
        }
    }
}

} // verus!
