//! Splitting one tag at its first colon.

use vstd::prelude::*;

verus! {

/// `p` is the position of the first colon of `tag`.
pub open spec fn first_colon_at(tag: Seq<char>, p: int) -> bool {
    &&& 0 <= p < tag.len()
    &&& tag[p] == ':'
    &&& forall|j: int| 0 <= j < p ==> tag[j] != ':'
}

/// The tag holds a colon somewhere.
pub open spec fn has_separator(tag: Seq<char>) -> bool {
    exists|p: int| 0 <= p < tag.len() && tag[p] == ':'
}

/// The position of the first colon of a tag that has one.
pub open spec fn separator_position(tag: Seq<char>) -> int {
    choose|p: int| first_colon_at(tag, p)
}

/// Key and value of a tag: what stands before its first colon and what stands
/// after it. `None` for a tag without a colon.
pub open spec fn parse_tag(tag: Seq<char>) -> Option<(Seq<char>, Seq<char>)> {
    if has_separator(tag) {
        let p = separator_position(tag);
        Some((tag.subrange(0, p), tag.subrange(p + 1, tag.len() as int)))
    } else {
        None
    }
}

/// A tag with a colon has a first colon.
pub proof fn lemma_first_colon_exists(tag: Seq<char>)
    requires
        has_separator(tag),
    ensures
        first_colon_at(tag, separator_position(tag)),
{
    let q = choose|q: int| 0 <= q < tag.len() && tag[q] == ':';
    lemma_first_colon_before(tag, q);
}

proof fn lemma_first_colon_before(tag: Seq<char>, q: int)
    requires
        0 <= q < tag.len(),
        tag[q] == ':',
    ensures
        exists|p: int| first_colon_at(tag, p),
    decreases q,
{
    if exists|j: int| 0 <= j < q && tag[j] == ':' {
        let j = choose|j: int| 0 <= j < q && tag[j] == ':';
        lemma_first_colon_before(tag, j);
    } else {
        assert(first_colon_at(tag, q));
    }
}

/// A tag is split at `p` whenever `p` is its first colon: the first colon is
/// unique.
pub proof fn lemma_parse_tag_at(tag: Seq<char>, p: int)
    requires
        first_colon_at(tag, p),
    ensures
        has_separator(tag),
        separator_position(tag) == p,
        parse_tag(tag) == Some((tag.subrange(0, p), tag.subrange(p + 1, tag.len() as int))),
{
    let q = separator_position(tag);
    assert(first_colon_at(tag, q));
    if q < p {
        assert(tag[q] != ':');
    }
    if p < q {
        assert(tag[p] != ':');
    }
}

/// A key without a colon, a colon and any value make a tag that splits back
/// into that key and that value: colons inside the value are kept.
pub proof fn lemma_parse_tag_joined(key: Seq<char>, value: Seq<char>)
    requires
        !has_separator(key),
    ensures
        parse_tag(key + seq![':'] + value) == Some((key, value)),
{
    let tag = key + seq![':'] + value;
    let p = key.len() as int;
    assert(tag[p] == ':');
    assert forall|j: int| 0 <= j < p implies tag[j] != ':' by {
        assert(tag[j] == key[j]);
    }
    lemma_parse_tag_at(tag, p);
    assert(tag.subrange(0, p) =~= key);
    assert(tag.subrange(p + 1, tag.len() as int) =~= value);
}

/// What a split tag gives back, put together again around a colon, is the tag,
/// and the key holds no colon.
pub proof fn lemma_parse_tag_parts(tag: Seq<char>)
    requires
        has_separator(tag),
    ensures
        parse_tag(tag) matches Some(parts) && !has_separator(parts.0) && parts.0 + seq![':']
            + parts.1 == tag,
{
    lemma_first_colon_exists(tag);
    let p = separator_position(tag);
    let key = tag.subrange(0, p);
    let value = tag.subrange(p + 1, tag.len() as int);
    assert(key + seq![':'] + value =~= tag);
    if has_separator(key) {
        let j = choose|j: int| 0 <= j < key.len() && key[j] == ':';
        assert(tag[j] == key[j]);
    }
}

/// Key and value of one tag.
pub struct TagParts {
    pub key: String,
    pub value: String,
}

/// Splits `tag` at its first colon. A tag without a colon gives `None`; an
/// empty key or an empty value is an ordinary result.
pub fn split_tag(tag: &str) -> (parts: Option<TagParts>)
    ensures
        match parts {
            Some(p) => parse_tag(tag@) == Some((p.key@, p.value@)),
            None => parse_tag(tag@) is None,
        },
{
    broadcast use vstd::string::group_string_axioms;

    let len: usize = tag.unicode_len();
    let mut at: usize = 0;
    for c in chars: tag.chars()
        invariant
            chars.seq() == tag@,
            len == tag@.len(),
            at == chars.index(),
            forall|j: int| 0 <= j < at ==> tag@[j] != ':',
    {
        if c == ':' {
            proof {
                lemma_parse_tag_at(tag@, at as int);
            }
            let key = tag.substring_char(0, at).to_owned();
            let value = tag.substring_char(at + 1, len).to_owned();
            return Some(TagParts { key, value });
        }
        at = at + 1;
    }
    None
}

} // verus!
