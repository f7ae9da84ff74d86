use vstd::prelude::*;
use vstd::string::*;
use vstd::utf8::*;
use crate::entity::{email_tag, file_tag, views, EntityView, PiiEntity};

verus! {

broadcast use vstd::seq_lib::group_seq_properties;

/// E-mail addresses: a local part, `@`, domain labels, `.` and a top-level
/// domain of two or more letters.
pub const EMAIL_PATTERN: &'static str = r"[a-zA-Z0-9._%+-]+@[a-zA-Z0-9.-]+\.[a-zA-Z]{2,}";

/// File paths, as one alternation so that the leftmost match wins.
pub const FILE_PATTERN: &'static str = r"(?x)
    # UNC paths: \\server\share\file
    \\\\[a-zA-Z0-9._-]+(?:\\[a-zA-Z0-9._-]+)+
    |
    # Windows drive paths: C:\Users\Bob\file (2+ segments after drive)
    [A-Za-z]:\\[a-zA-Z0-9._-]+(?:\\[a-zA-Z0-9._-]+)+
    |
    # Home-relative: ~/documents/report.pdf
    ~/[a-zA-Z0-9._-]+(?:/[a-zA-Z0-9._-]+)*
    |
    # Relative dot-prefix: ./config.yml or ../data/file.csv
    \.\.?/[a-zA-Z0-9._-]+(?:/[a-zA-Z0-9._-]+)*
    |
    # Unix absolute: /home/user/file (2+ segments)
    /[a-zA-Z0-9._-]+(?:/[a-zA-Z0-9._-]+)+
    ";

/// The byte ranges of the successive non-overlapping matches of the regular
/// expression `pattern` in `text`, leftmost first.
pub uninterp spec fn regex_matches(pattern: Seq<char>, text: Seq<char>) -> Seq<(usize, usize)>;

/// Byte ranges that lie inside `text` on character boundaries, each starting
/// no earlier than the previous one ends.
pub open spec fn spans_fit(text: Seq<u8>, spans: Seq<(usize, usize)>) -> bool {
    &&& forall|i: int|
        0 <= i < spans.len() ==> {
            &&& (#[trigger] spans[i]).0 <= spans[i].1 <= text.len()
            &&& is_char_boundary(text, spans[i].0 as int)
            &&& is_char_boundary(text, spans[i].1 as int)
        }
    &&& forall|i: int| 0 < i < spans.len() ==> spans[i - 1].1 <= (#[trigger] spans[i]).0
}

/// One entity of type `kind` for each byte range, holding the text it covers.
pub open spec fn span_entities(text: Seq<u8>, spans: Seq<(usize, usize)>, kind: Seq<char>) -> Seq<
    EntityView,
> {
    Seq::new(
        spans.len(),
        |i: int|
            EntityView {
                kind,
                start: spans[i].0 as int,
                end: spans[i].1 as int,
                original: decode_utf8(text.subrange(spans[i].0 as int, spans[i].1 as int)),
            },
    )
}

/// Relies on `regex::Regex::new` and `regex::Regex::find_iter`: the matches of
/// a pattern depend on the pattern and the text alone; `find_iter` yields
/// successive non-overlapping matches whose `start() <= end()` fall on UTF-8
/// boundaries of the text. A pattern that does not compile matches nowhere.
#[verifier::external_body]
fn find_matches(pattern: &str, text: &str) -> (r: Vec<(usize, usize)>)
    ensures
        r@ == regex_matches(pattern@, text@),
        spans_fit(text.spec_bytes(), r@),
{
    match regex::Regex::new(pattern) {
        Ok(re) => re.find_iter(text).map(|m| (m.start(), m.end())).collect(),
        Err(_) => Vec::new(),
    }
}

/// Builds one entity of type `kind` for each byte range of `spans`, in order.
pub fn entities_from_spans(text: &str, spans: &Vec<(usize, usize)>, kind: &str) -> (r: Vec<
    PiiEntity,
>)
    requires
        spans_fit(text.spec_bytes(), spans@),
    ensures
        views(r@) == span_entities(text.spec_bytes(), spans@, kind@),
{
    let ghost t = text.spec_bytes();
    let mut r: Vec<PiiEntity> = Vec::new();
    let mut i: usize = 0;
    while i < spans.len()
        invariant
            i <= spans.len(),
            t == text.spec_bytes(),
            spans_fit(t, spans@),
            views(r@) == span_entities(t, spans@, kind@).subrange(0, i as int),
        decreases spans.len() - i,
    {
        let (s, e) = spans[i];
        assert(spans@[i as int] == (s, e));
        let (_, tail) = text.split_at(s);
        proof {
            encode_utf8_valid_utf8(text@);
            valid_utf8_split(t, s as int);
            is_char_boundary_start_end_of_seq(t);
            is_char_boundary_start_end_of_seq(tail.spec_bytes());
            let sub = t.subrange(s as int, t.len() as int);
            assert(tail.spec_bytes() =~= sub);
            if (e as int) < t.len() {
                is_char_boundary_iff_not_is_continuation_byte(t, e as int);
                is_char_boundary_iff_not_is_continuation_byte(sub, e - s);
            }
        }
        let (piece, _) = tail.split_at(e - s);
        let original = piece.to_owned();
        proof {
            assert(piece.spec_bytes() =~= t.subrange(s as int, e as int));
            encode_utf8_decode_utf8(piece@);
        }
        let ent = PiiEntity::new(kind.to_owned(), s, e, original);
        let ghost prev = r@;
        r.push(ent);
        proof {
            let want = span_entities(t, spans@, kind@);
            assert(want[i as int].original == decode_utf8(t.subrange(s as int, e as int)));
            assert(views(prev).len() == prev.len());
            assert(r@ == prev.push(ent));
            assert(r@[i as int]@ == want[i as int]);
            assert(views(r@) =~= want.subrange(0, i + 1));
        }
        i = i + 1;
    }
    assert(span_entities(t, spans@, kind@).subrange(0, i as int) =~= span_entities(t, spans@, kind@));
    r
}

/// Every e-mail address in `text`, left to right, as `"email"` entities.
pub fn detect_emails(text: &str) -> (r: Vec<PiiEntity>)
    ensures
        views(r@) == span_entities(
            text.spec_bytes(),
            regex_matches(EMAIL_PATTERN@, text@),
            email_tag(),
        ),
        spans_fit(text.spec_bytes(), regex_matches(EMAIL_PATTERN@, text@)),
{
    let spans = find_matches(EMAIL_PATTERN, text);
    proof {
        reveal_strlit("email");
        assert("email"@ =~= email_tag());
    }
    entities_from_spans(text, &spans, "email")
}

/// Every file path in `text`, left to right, as `"file"` entities.
pub fn detect_files(text: &str) -> (r: Vec<PiiEntity>)
    ensures
        views(r@) == span_entities(
            text.spec_bytes(),
            regex_matches(FILE_PATTERN@, text@),
            file_tag(),
        ),
        spans_fit(text.spec_bytes(), regex_matches(FILE_PATTERN@, text@)),
{
    let spans = find_matches(FILE_PATTERN, text);
    proof {
        reveal_strlit("file");
        assert("file"@ =~= file_tag());
    }
    entities_from_spans(text, &spans, "file")
}

} // verus!
