use vstd::prelude::*;
use vstd::utf8::*;
use vstd::string::*;
use crate::entity::{placeholder, views, PiiEntity, EntityView};

verus! {

broadcast use vstd::seq_lib::group_seq_properties;

/// The well-placed spans of `ents` in `text`: each lies inside the text, starts
/// and ends on character boundaries, and starts no earlier than the previous
/// one ends.
pub open spec fn layout_ok(text: Seq<u8>, ents: Seq<EntityView>) -> bool {
    &&& forall|i: int|
        0 <= i < ents.len() ==> {
            &&& 0 <= #[trigger] ents[i].start <= ents[i].end <= text.len()
            &&& is_char_boundary(text, ents[i].start)
            &&& is_char_boundary(text, ents[i].end)
        }
    &&& forall|i: int| 0 < i < ents.len() ==> ents[i - 1].end <= #[trigger] ents[i].start
}

/// The bytes of `text` with each span of `ents` replaced by its placeholder.
/// The last span is replaced first, so that the offsets of the others still
/// refer to the unchanged prefix.
pub open spec fn redacted_bytes(text: Seq<u8>, ents: Seq<EntityView>) -> Seq<u8>
    decreases ents.len(),
{
    if ents.len() == 0 {
        text
    } else {
        let e = ents.last();
        redacted_bytes(text.subrange(0, e.start), ents.drop_last()) + encode_utf8(
            placeholder(e.kind),
        ) + text.subrange(e.end, text.len() as int)
    }
}

/// Encoding a concatenation encodes each part.
pub proof fn lemma_encode_concat(a: Seq<char>, b: Seq<char>)
    ensures
        encode_utf8(a + b) == encode_utf8(a) + encode_utf8(b),
    decreases a.len(),
{
    if a.len() == 0 {
        assert(a + b =~= b);
    } else {
        lemma_encode_concat(a.drop_first(), b);
        assert((a + b).drop_first() =~= a.drop_first() + b);
        assert(encode_utf8(a + b) =~= encode_utf8(a) + encode_utf8(b));
    }
}

/// Text after the last span is carried over unchanged.
proof fn lemma_redacted_extend(t: Seq<u8>, u: Seq<u8>, ents: Seq<EntityView>)
    requires
        ents.len() > 0 ==> 0 <= ents.last().start <= ents.last().end <= t.len(),
    ensures
        redacted_bytes(t + u, ents) == redacted_bytes(t, ents) + u,
{
    if ents.len() > 0 {
        let e = ents.last();
        assert((t + u).subrange(0, e.start) =~= t.subrange(0, e.start));
        assert((t + u).subrange(e.end, (t + u).len() as int) =~= t.subrange(e.end, t.len() as int)
            + u);
        assert(redacted_bytes(t + u, ents) =~= redacted_bytes(t, ents) + u);
    }
}

/// A boundary of a suffix is a boundary of the whole text, shifted.
pub proof fn lemma_boundary_shift(t: Seq<u8>, c: int, i: int)
    requires
        valid_utf8(t),
        is_char_boundary(t, c),
        0 <= c <= t.len(),
        0 <= i <= t.len() - c,
    ensures
        is_char_boundary(t.subrange(c, t.len() as int), i) == is_char_boundary(t, c + i),
{
    let s = t.subrange(c, t.len() as int);
    valid_utf8_split(t, c);
    is_char_boundary_start_end_of_seq(t);
    is_char_boundary_start_end_of_seq(s);
    if i < s.len() {
        is_char_boundary_iff_not_is_continuation_byte(t, c + i);
        is_char_boundary_iff_not_is_continuation_byte(s, i);
    }
}

/// Replaces each span of `ents` in `text` by its placeholder `[REDACTED-<type>]`.
/// The spans must be well placed (see `layout_ok`); otherwise the offsets do
/// not fit the text and the result is an error.
pub fn rewrite(text: &str, ents: &Vec<PiiEntity>) -> (r: Result<String, String>)
    ensures
        r.is_ok() == layout_ok(text.spec_bytes(), views(ents@)),
        r.is_ok() ==> encode_utf8(r.unwrap()@) == redacted_bytes(
            text.spec_bytes(),
            views(ents@),
        ),
{
    let ghost t = text.spec_bytes();
    let ghost vs = views(ents@);
    proof {
        encode_utf8_valid_utf8(text@);
        is_char_boundary_start_end_of_seq(t);
    }
    let len = text.as_bytes().len();
    let mut out = String::new();
    let mut rest: &str = text;
    let mut cursor: usize = 0;
    let mut k: usize = 0;
    while k < ents.len()
        invariant
            k <= ents.len(),
            vs == views(ents@),
            t == text.spec_bytes(),
            len == t.len(),
            valid_utf8(t),
            0 <= cursor <= len,
            is_char_boundary(t, cursor as int),
            rest.spec_bytes() == t.subrange(cursor as int, t.len() as int),
            k == 0 ==> cursor == 0,
            k > 0 ==> cursor as int == vs[k - 1].end,
            layout_ok(t, vs.subrange(0, k as int)),
            encode_utf8(out@) == redacted_bytes(t.subrange(0, cursor as int), vs.subrange(0, k as int)),
        decreases ents.len() - k,
    {
        let e = &ents[k];
        assert(vs[k as int] == e@);
        if e.start < cursor || e.end < e.start || e.end > len || !text.is_char_boundary(e.start)
            || !text.is_char_boundary(e.end) {
            proof {
                if layout_ok(t, vs) {
                    assert(0 <= vs[k as int].start <= vs[k as int].end <= t.len());
                    if k > 0 {
                        assert(vs[k - 1].end <= vs[k as int].start);
                    }
                }
            }
            return Err("span does not fit the text".to_owned());
        }
        let ghost s = e.start as int;
        let ghost en = e.end as int;
        proof {
            lemma_boundary_shift(t, cursor as int, s - cursor);
        }
        let (mid, tail) = rest.split_at(e.start - cursor);
        assert(tail.spec_bytes() =~= t.subrange(s, t.len() as int));
        assert(mid.spec_bytes() =~= t.subrange(cursor as int, s));
        proof {
            lemma_boundary_shift(t, s, en - s);
        }
        let (_, after) = tail.split_at(e.end - e.start);
        assert(after.spec_bytes() =~= t.subrange(en, t.len() as int));
        let ph = e.placeholder_text();
        let ghost old_out = out@;
        out.append(mid);
        out.append(ph.as_str());
        proof {
            lemma_encode_concat(old_out, mid@);
            lemma_encode_concat(old_out + mid@, ph@);
            let pre = vs.subrange(0, k as int);
            let next = vs.subrange(0, k + 1);
            assert(next.drop_last() =~= pre);
            assert(next.last() == e@);
            lemma_redacted_extend(t.subrange(0, cursor as int), t.subrange(cursor as int, s), pre);
            assert(t.subrange(0, cursor as int) + t.subrange(cursor as int, s) =~= t.subrange(0, s));
            assert(t.subrange(0, en).subrange(0, s) =~= t.subrange(0, s));
            assert(t.subrange(0, en).subrange(en, en) =~= Seq::<u8>::empty());
            assert(redacted_bytes(t.subrange(0, en), next) =~= redacted_bytes(t.subrange(0, s), pre)
                + encode_utf8(placeholder(e.entity_type@)));
            assert(out@ =~= old_out + mid@ + ph@);
            assert forall|i: int| 0 <= i < next.len() implies {
                &&& 0 <= #[trigger] next[i].start <= next[i].end <= t.len()
                &&& is_char_boundary(t, next[i].start)
                &&& is_char_boundary(t, next[i].end)
            } by {
                if i < k {
                    assert(next[i] == pre[i]);
                }
            }
            assert forall|i: int| 0 < i < next.len() implies next[i - 1].end <= #[trigger] next[i].start by {
                if i < k {
                    assert(next[i] == pre[i]);
                    assert(next[i - 1] == pre[i - 1]);
                } else {
                    assert(next[i - 1] == vs[k - 1]);
                }
            }
        }
        rest = after;
        cursor = e.end;
        k = k + 1;
    }
    proof {
        assert(vs.subrange(0, k as int) =~= vs);
        lemma_redacted_extend(t.subrange(0, cursor as int), t.subrange(cursor as int, t.len() as int), vs);
        assert(t.subrange(0, cursor as int) + t.subrange(cursor as int, t.len() as int) =~= t);
        lemma_encode_concat(out@, rest@);
    }
    out.append(rest);
    Ok(out)
}

} // verus!
