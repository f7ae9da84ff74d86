use vstd::prelude::*;
use vstd::string::*;
use vstd::utf8::*;

verus! {

/// A detected span of personal data: a category tag and a half-open byte
/// range `[start, end)` into the text it was detected in.
pub struct PiiEntity {
    pub entity_type: String,
    pub start: usize,
    pub end: usize,
    pub original: String,
}

/// The mathematical content of a `PiiEntity`.
pub struct EntityView {
    pub kind: Seq<char>,
    pub start: int,
    pub end: int,
    pub original: Seq<char>,
}

impl View for PiiEntity {
    type V = EntityView;

    open spec fn view(&self) -> EntityView {
        EntityView {
            kind: self.entity_type@,
            start: self.start as int,
            end: self.end as int,
            original: self.original@,
        }
    }
}

/// The views of a sequence of entities.
pub open spec fn views(es: Seq<PiiEntity>) -> Seq<EntityView> {
    es.map_values(|e: PiiEntity| e@)
}

/// The tag of e-mail entities.
pub open spec fn email_tag() -> Seq<char> {
    seq!['e', 'm', 'a', 'i', 'l']
}

/// The tag of file-path entities.
pub open spec fn file_tag() -> Seq<char> {
    seq!['f', 'i', 'l', 'e']
}

/// The tag of person-name entities.
pub open spec fn name_tag() -> Seq<char> {
    seq!['n', 'a', 'm', 'e']
}

/// The tags that the detectors of this library produce.
pub open spec fn is_known_tag(kind: Seq<char>) -> bool {
    kind == email_tag() || kind == file_tag() || kind == name_tag()
}

/// The text that stands in for a redacted span: `[REDACTED-<kind>]`.
pub open spec fn placeholder(kind: Seq<char>) -> Seq<char> {
    seq!['[', 'R', 'E', 'D', 'A', 'C', 'T', 'E', 'D', '-'] + kind + seq![']']
}

/// `e` lies inside `t`, on character boundaries.
pub open spec fn fits(t: Seq<u8>, e: EntityView) -> bool {
    &&& 0 <= e.start <= e.end <= t.len()
    &&& is_char_boundary(t, e.start)
    &&& is_char_boundary(t, e.end)
}

/// Every entity of `s` satisfies `p`.
pub open spec fn all_satisfy(s: Seq<EntityView>, p: spec_fn(EntityView) -> bool) -> bool {
    forall|i: int| 0 <= i < s.len() ==> p(#[trigger] s[i])
}

impl PiiEntity {
    /// Builds an entity from its parts.
    pub fn new(entity_type: String, start: usize, end: usize, original: String) -> (r: PiiEntity)
        ensures
            r@ == (EntityView { kind: entity_type@, start: start as int, end: end as int, original: original@ }),
    {
        PiiEntity { entity_type, start, end, original }
    }

    /// The placeholder that replaces this entity's span.
    pub fn placeholder_text(&self) -> (r: String)
        ensures
            r@ == placeholder(self.entity_type@),
    {
        let mut r = "[REDACTED-".to_owned();
        r.append(self.entity_type.as_str());
        r.append("]");
        proof {
            reveal_strlit("[REDACTED-");
            reveal_strlit("]");
            assert(r@ =~= placeholder(self.entity_type@));
        }
        r
    }
}

} // verus!
