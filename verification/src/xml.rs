//! The little XML `WebDAV` carries, read for what a transport needs from it:
//! the members a multistatus lists, and the token a LOCK grants.
//!
//! Not an XML parser. Elements are found by local name whatever prefix the
//! server chose — `D:`, `d:`, none — and entities are the five XML has.
//! A server that nests a `response` inside a `response` is handled; one
//! that puts markup in a CDATA section is not, and no `WebDAV` server does.

use vstd::prelude::*;
use vstd::slice::slice_subrange;
use crate::text::{
    as_offset, chars_of, find_char, find_from, is_at, lemma_find_from, rfind, rfind_char, same_chars,
    string_of, trim, trim_of, trim_start, trim_start_of, Class,
};

verus! {

/// What PROPFIND said about one member: its href, whether it is a
/// collection, and whether an active lock was reported on it.
#[derive(Clone, Debug, PartialEq, Eq)]
pub struct Member {
    pub href: String,
    pub collection: bool,
    pub locked: bool,
}

/// A [`Member`], its href as a sequence of characters.
pub struct MemberView {
    pub href: Seq<char>,
    pub collection: bool,
    pub locked: bool,
}

impl View for Member {
    type V = MemberView;

    open spec fn view(&self) -> MemberView {
        MemberView { href: self.href@, collection: self.collection, locked: self.locked }
    }
}

/// The views of a run of members.
pub open spec fn member_views(members: Seq<Member>) -> Seq<MemberView> {
    members.map_values(|m: Member| m@)
}

// ---------------------------------------------------------------------
// Entities
// ---------------------------------------------------------------------

/// The entity `s` starts with: the character it stands for, and its length.
pub open spec fn entity(s: Seq<char>) -> Option<(char, int)> {
    if seq!['&', 'l', 't', ';'].is_prefix_of(s) {
        Some(('<', 4))
    } else if seq!['&', 'g', 't', ';'].is_prefix_of(s) {
        Some(('>', 4))
    } else if seq!['&', 'q', 'u', 'o', 't', ';'].is_prefix_of(s) {
        Some(('"', 6))
    } else if seq!['&', 'a', 'p', 'o', 's', ';'].is_prefix_of(s) {
        Some(('\'', 6))
    } else if seq!['&', 'a', 'm', 'p', ';'].is_prefix_of(s) {
        Some(('&', 5))
    } else {
        None
    }
}

/// `s` with each entity replaced by its character. What an entity gives is
/// not read again: `&amp;lt;` gives `&lt;`.
pub open spec fn unescaped(s: Seq<char>) -> Seq<char>
    decreases s.len(),
{
    if s.len() == 0 {
        Seq::empty()
    } else {
        match entity(s) {
            Some((c, n)) => seq![c] + unescaped(s.skip(n)),
            None => seq![s[0]] + unescaped(s.skip(1)),
        }
    }
}

/// One character as XML text writes it.
pub open spec fn escaped_char(c: char) -> Seq<char> {
    if c == '&' {
        seq!['&', 'a', 'm', 'p', ';']
    } else if c == '<' {
        seq!['&', 'l', 't', ';']
    } else if c == '>' {
        seq!['&', 'g', 't', ';']
    } else if c == '"' {
        seq!['&', 'q', 'u', 'o', 't', ';']
    } else {
        seq![c]
    }
}

/// `s` as XML text writes it.
pub open spec fn escaped(s: Seq<char>) -> Seq<char>
    decreases s.len(),
{
    if s.len() == 0 {
        Seq::empty()
    } else {
        escaped_char(s[0]) + escaped(s.skip(1))
    }
}

/// The entity that `text` has at `at`.
fn entity_at(text: &[char], at: usize) -> (res: Option<(char, usize)>)
    requires
        at <= text.len(),
    ensures
        match res {
            Some(found) => entity(text@.skip(at as int)) == Some((found.0, found.1 as int)) && 0
                < found.1 <= text.len() - at,
            None => entity(text@.skip(at as int)) is None,
        },
{
    let lt: Vec<char> = vec!['&', 'l', 't', ';'];
    let gt: Vec<char> = vec!['&', 'g', 't', ';'];
    let quot: Vec<char> = vec!['&', 'q', 'u', 'o', 't', ';'];
    let apos: Vec<char> = vec!['&', 'a', 'p', 'o', 's', ';'];
    let amp: Vec<char> = vec!['&', 'a', 'm', 'p', ';'];
    proof {
        let rest = text@.skip(at as int);
        assert(lt@ == seq!['&', 'l', 't', ';']);
        assert(gt@ == seq!['&', 'g', 't', ';']);
        assert(quot@ == seq!['&', 'q', 'u', 'o', 't', ';']);
        assert(apos@ == seq!['&', 'a', 'p', 'o', 's', ';']);
        assert(amp@ == seq!['&', 'a', 'm', 'p', ';']);
        assert forall|part: Seq<char>| crate::text::stands_at(text@, part, at as int)
            <==> #[trigger] part.is_prefix_of(rest) by {
            if part.len() <= rest.len() {
                assert(rest.subrange(0, part.len() as int) == text@.subrange(
                    at as int,
                    at + part.len(),
                ));
            }
        }
    }
    if is_at(text, lt.as_slice(), at) {
        Some(('<', 4))
    } else if is_at(text, gt.as_slice(), at) {
        Some(('>', 4))
    } else if is_at(text, quot.as_slice(), at) {
        Some(('"', 6))
    } else if is_at(text, apos.as_slice(), at) {
        Some(('\'', 6))
    } else if is_at(text, amp.as_slice(), at) {
        Some(('&', 5))
    } else {
        None
    }
}

/// These characters with each entity replaced by its character.
fn unescape_chars(text: &[char]) -> (res: String)
    ensures
        res@ == unescaped(text@),
{
    let mut out = String::new();
    let mut i: usize = 0;
    proof {
        assert(text@.skip(0) == text@);
    }
    while i < text.len()
        invariant
            i <= text.len(),
            out@ + unescaped(text@.skip(i as int)) == unescaped(text@),
        decreases text.len() - i,
    {
        let ghost before = out@;
        match entity_at(text, i) {
            Some((c, n)) => {
                proof {
                    assert(text@.skip(i as int).skip(n as int) == text@.skip(i + n));
                }
                out.push(c);
                i += n;
                proof {
                    assert(before + (seq![c] + unescaped(text@.skip(i as int))) == before.push(c)
                        + unescaped(text@.skip(i as int)));
                }
            },
            None => {
                let c = text[i];
                proof {
                    assert(text@.skip(i as int).skip(1) == text@.skip(i + 1));
                }
                out.push(c);
                i += 1;
                proof {
                    assert(before + (seq![c] + unescaped(text@.skip(i as int))) == before.push(c)
                        + unescaped(text@.skip(i as int)));
                }
            },
        }
    }
    out
}

/// `&amp;`, `&lt;`, `&gt;`, `&quot;` and `&apos;` back to their characters.
#[must_use]
pub fn unescape(text: &str) -> (res: String)
    ensures
        res@ == unescaped(text@),
{
    let chars = chars_of(text);
    unescape_chars(chars.as_slice())
}

/// The characters XML text cannot carry bare, escaped.
#[must_use]
pub fn escape(text: &str) -> (res: String)
    ensures
        res@ == escaped(text@),
{
    let chars = chars_of(text);
    let mut out: Vec<char> = Vec::new();
    let mut i: usize = 0;
    proof {
        assert(chars@.skip(0) == chars@);
    }
    while i < chars.len()
        invariant
            i <= chars.len(),
            out@ + escaped(chars@.skip(i as int)) == escaped(chars@),
        decreases chars.len() - i,
    {
        let ghost before = out@;
        let c = chars[i];
        let mut more: Vec<char> = if c == '&' {
            vec!['&', 'a', 'm', 'p', ';']
        } else if c == '<' {
            vec!['&', 'l', 't', ';']
        } else if c == '>' {
            vec!['&', 'g', 't', ';']
        } else if c == '"' {
            vec!['&', 'q', 'u', 'o', 't', ';']
        } else {
            vec![c]
        };
        proof {
            assert(more@ == escaped_char(c));
            assert(chars@.skip(i as int).skip(1) == chars@.skip(i + 1));
        }
        out.append(&mut more);
        i += 1;
        proof {
            assert(before + (escaped_char(c) + escaped(chars@.skip(i as int))) == before
                + escaped_char(c) + escaped(chars@.skip(i as int)));
        }
    }
    string_of(out.as_slice())
}

// ---------------------------------------------------------------------
// Tags and elements
// ---------------------------------------------------------------------

/// One tag as it opens or closes: where it stands, its local name, whether
/// it closes, and whether it closes itself.
pub struct TagView {
    pub open: int,
    pub close: int,
    pub local: Seq<char>,
    pub closes: bool,
    pub empty: bool,
}

/// Where the name at the start of a tag ends: at a space or a slash.
pub open spec fn name_end(s: Seq<char>, from: int) -> int
    decreases s.len() - from,
{
    if from >= s.len() {
        s.len() as int
    } else if s[from] == ' ' || s[from] == '/' {
        from
    } else {
        name_end(s, from + 1)
    }
}

/// A name without its namespace prefix.
pub open spec fn without_prefix(name: Seq<char>) -> Seq<char> {
    match rfind(name, ':') {
        Some(i) => name.skip(i + 1),
        None => name,
    }
}

/// The local name of the tag whose angle brackets hold `raw`.
pub open spec fn local_name(raw: Seq<char>) -> Seq<char> {
    let named = trim_start(raw, Class::Slash);
    without_prefix(named.take(name_end(named, 0)))
}

/// The first tag at or after `from`.
pub open spec fn tag_at(xml: Seq<char>, from: int) -> Option<TagView> {
    match find_from(xml, '<', from) {
        None => None,
        Some(open) => match find_from(xml, '>', open) {
            None => None,
            Some(close) => {
                let raw = xml.subrange(open + 1, close);
                Some(
                    TagView {
                        open,
                        close,
                        local: local_name(raw),
                        closes: raw.len() > 0 && raw.first() == '/',
                        empty: raw.len() > 0 && raw.last() == '/',
                    },
                )
            },
        },
    }
}

/// A tag stands at or after the place it was looked for from.
pub proof fn lemma_tag_at(xml: Seq<char>, from: int)
    ensures
        tag_at(xml, from) matches Some(t) ==> 0 <= from <= t.open < t.close < xml.len(),
{
    if from >= 0 {
        lemma_find_from(xml, '<', from);
        if let Some(open) = find_from(xml, '<', from) {
            lemma_find_from(xml, '>', open);
        }
    }
}

/// Where the close tag of `name` begins, looked for from `from` with `depth`
/// elements of that name still open inside.
pub open spec fn closing_at(xml: Seq<char>, from: int, name: Seq<char>, depth: nat) -> Option<int>
    decreases xml.len() - from,
{
    proof {
        lemma_tag_at(xml, from);
    }
    match tag_at(xml, from) {
        None => None,
        Some(t) => if t.local != name {
            closing_at(xml, t.close + 1, name, depth)
        } else if t.closes {
            if depth == 0 {
                Some(t.open)
            } else {
                closing_at(xml, t.close + 1, name, (depth - 1) as nat)
            }
        } else if t.empty {
            closing_at(xml, t.close + 1, name, depth)
        } else {
            closing_at(xml, t.close + 1, name, depth + 1)
        },
    }
}

/// A close tag stands at or after the place it was looked for from, and is
/// closed by an angle bracket.
pub proof fn lemma_closing_at(xml: Seq<char>, from: int, name: Seq<char>, depth: nat)
    ensures
        closing_at(xml, from, name, depth) matches Some(end) ==> {
            &&& 0 <= from <= end < xml.len()
            &&& find_from(xml, '>', end) matches Some(close) && end < close < xml.len()
        },
    decreases xml.len() - from,
{
    lemma_tag_at(xml, from);
    if let Some(t) = tag_at(xml, from) {
        lemma_find_from(xml, '<', from);
        lemma_find_from(xml, '>', t.open);
        if t.local != name || (!t.closes && t.empty) {
            lemma_closing_at(xml, t.close + 1, name, depth);
        } else if t.closes {
            if depth > 0 {
                lemma_closing_at(xml, t.close + 1, name, (depth - 1) as nat);
            }
        } else {
            lemma_closing_at(xml, t.close + 1, name, depth + 1);
        }
    }
}

/// The content of the first `name` element at or after `from`, and the
/// offset after its close tag.
pub open spec fn element_at(xml: Seq<char>, from: int, name: Seq<char>) -> Option<(Seq<char>, int)>
    decreases xml.len() - from,
{
    proof {
        lemma_tag_at(xml, from);
    }
    match tag_at(xml, from) {
        None => None,
        Some(t) => if t.local == name && !t.closes && !t.empty {
            match closing_at(xml, t.close + 1, name, 0) {
                None => None,
                Some(end) => match find_from(xml, '>', end) {
                    None => None,
                    Some(close) => Some((xml.subrange(t.close + 1, end), close + 1)),
                },
            }
        } else {
            element_at(xml, t.close + 1, name)
        },
    }
}

/// An element ends after the place it was looked for from.
pub proof fn lemma_element_at(xml: Seq<char>, from: int, name: Seq<char>)
    ensures
        element_at(xml, from, name) matches Some(found) ==> 0 <= from < found.1 <= xml.len(),
    decreases xml.len() - from,
{
    lemma_tag_at(xml, from);
    if let Some(t) = tag_at(xml, from) {
        lemma_closing_at(xml, t.close + 1, name, 0);
        if !(t.local == name && !t.closes && !t.empty) {
            lemma_element_at(xml, t.close + 1, name);
        }
    }
}

/// Whether a `name` element opens at or after `from`, `<D:collection/>`
/// included.
pub open spec fn opens_from(xml: Seq<char>, from: int, name: Seq<char>) -> bool
    decreases xml.len() - from,
{
    proof {
        lemma_tag_at(xml, from);
    }
    match tag_at(xml, from) {
        None => false,
        Some(t) => (t.local == name && !t.closes) || opens_from(xml, t.close + 1, name),
    }
}

/// The member one `response` element speaks of, where it names an href.
pub open spec fn member_of(content: Seq<char>) -> Option<MemberView> {
    match element_at(content, 0, "href"@) {
        None => None,
        Some((href, _)) => Some(
            MemberView {
                href: unescaped(trim(href, Class::White)),
                collection: opens_from(content, 0, "collection"@),
                locked: opens_from(content, 0, "activelock"@),
            },
        ),
    }
}

/// The members that the `response` elements at or after `from` speak of.
pub open spec fn members_from(xml: Seq<char>, from: int) -> Seq<MemberView>
    decreases xml.len() - from,
{
    proof {
        lemma_element_at(xml, from, "response"@);
    }
    match element_at(xml, from, "response"@) {
        None => Seq::empty(),
        Some((content, after)) => match member_of(content) {
            None => members_from(xml, after),
            Some(member) => seq![member] + members_from(xml, after),
        },
    }
}

/// The lock token that a LOCK response carries.
pub open spec fn token_in(xml: Seq<char>) -> Option<Seq<char>> {
    match element_at(xml, 0, "locktoken"@) {
        None => None,
        Some((content, _)) => match element_at(content, 0, "href"@) {
            None => None,
            Some((href, _)) => Some(unescaped(trim(href, Class::White))),
        },
    }
}

/// One tag as it opens or closes.
struct Tag<'a> {
    open: usize,
    close: usize,
    local: &'a [char],
    closes: bool,
    empty: bool,
}

impl<'a> Tag<'a> {
    /// This tag, its offsets as integers.
    spec fn tag_view(self) -> TagView {
        TagView {
            open: self.open as int,
            close: self.close as int,
            local: self.local@,
            closes: self.closes,
            empty: self.empty,
        }
    }
}

/// The local name of the tag whose angle brackets hold `raw`.
fn local<'a>(raw: &'a [char]) -> (res: &'a [char])
    ensures
        res@ == local_name(raw@),
{
    let named = trim_start_of(raw, Class::Slash);
    let mut n: usize = 0;
    while n < named.len() && named[n] != ' ' && named[n] != '/'
        invariant
            n <= named.len(),
            name_end(named@, 0) == name_end(named@, n as int),
        decreases named.len() - n,
    {
        n += 1;
    }
    let name = slice_subrange(named, 0, n);
    proof {
        assert(name@ == named@.take(n as int));
    }
    match rfind_char(name, ':') {
        Some(i) => {
            proof {
                assert(name@.skip(i + 1) == name@.subrange(i + 1, name@.len() as int));
            }
            slice_subrange(name, i + 1, name.len())
        },
        None => name,
    }
}

/// The first tag at or after `from`.
fn tag<'a>(xml: &'a [char], from: usize) -> (res: Option<Tag<'a>>)
    ensures
        match res {
            Some(t) => tag_at(xml@, from as int) == Some(t.tag_view()) && from <= t.open < t.close
                < xml.len(),
            None => tag_at(xml@, from as int) is None,
        },
{
    proof {
        lemma_tag_at(xml@, from as int);
    }
    let open = find_char(xml, '<', from)?;
    let close = find_char(xml, '>', open)?;
    let raw = slice_subrange(xml, open + 1, close);
    let n = raw.len();
    Some(
        Tag {
            open,
            close,
            local: local(raw),
            closes: n > 0 && raw[0] == '/',
            empty: n > 0 && raw[n - 1] == '/',
        },
    )
}

/// Where the close tag of `name` begins at or after `from`, nested
/// same-named elements skipped.
fn closing(xml: &[char], from: usize, name: &[char]) -> (res: Option<usize>)
    ensures
        as_offset(res) == closing_at(xml@, from as int, name@, 0),
{
    let mut depth: usize = 0;
    let mut at: usize = from;
    loop
        invariant
            from <= at,
            depth <= at - from,
            at <= xml.len() || at == from,
            closing_at(xml@, from as int, name@, 0) == closing_at(
                xml@,
                at as int,
                name@,
                depth as nat,
            ),
        decreases xml.len() + from - at,
    {
        let found = tag(xml, at)?;
        if same_chars(found.local, name) {
            if found.closes {
                if depth == 0 {
                    return Some(found.open);
                }
                depth -= 1;
            } else if !found.empty {
                depth += 1;
            }
        }
        at = found.close + 1;
    }
}

/// The content of the first `name` element at or after `from`, whatever
/// namespace prefix it carries, and the offset after its close tag.
fn element<'a>(xml: &'a [char], from: usize, name: &[char]) -> (res: Option<(&'a [char], usize)>)
    ensures
        match res {
            Some(found) => element_at(xml@, from as int, name@) == Some(
                (found.0@, found.1 as int),
            ) && from < found.1 <= xml.len(),
            None => element_at(xml@, from as int, name@) is None,
        },
{
    let mut at: usize = from;
    proof {
        lemma_element_at(xml@, from as int, name@);
    }
    loop
        invariant
            from <= at,
            at <= xml.len() || at == from,
            element_at(xml@, from as int, name@) == element_at(xml@, at as int, name@),
            element_at(xml@, from as int, name@) matches Some(found) ==> from < found.1
                <= xml.len(),
        decreases xml.len() + from - at,
    {
        let found = tag(xml, at)?;
        if same_chars(found.local, name) && !found.closes && !found.empty {
            let start: usize = found.close + 1;
            proof {
                lemma_closing_at(xml@, start as int, name@, 0);
            }
            let end = closing(xml, start, name)?;
            let close = find_char(xml, '>', end)?;
            return Some((slice_subrange(xml, start, end), close + 1));
        }
        at = found.close + 1;
    }
}

/// Whether a `name` element opens at all, `<D:collection/>` included.
fn has(xml: &[char], name: &[char]) -> (res: bool)
    ensures
        res == opens_from(xml@, 0, name@),
{
    let mut at: usize = 0;
    loop
        invariant
            at <= xml.len(),
            opens_from(xml@, 0, name@) == opens_from(xml@, at as int, name@),
        decreases xml.len() - at,
    {
        match tag(xml, at) {
            None => {
                return false;
            },
            Some(found) => {
                if same_chars(found.local, name) && !found.closes {
                    return true;
                }
                at = found.close + 1;
            },
        }
    }
}

/// The members of a multistatus body, one per `<D:response>`.
#[must_use]
pub fn members(xml: &str) -> (res: Vec<Member>)
    ensures
        member_views(res@) == members_from(xml@, 0),
{
    let text = chars_of(xml);
    let response = chars_of("response");
    let href = chars_of("href");
    let collection = chars_of("collection");
    let activelock = chars_of("activelock");
    let mut out: Vec<Member> = Vec::new();
    let mut from: usize = 0;
    proof {
        assert(member_views(out@) == Seq::<MemberView>::empty());
    }
    loop
        invariant
            text@ == xml@,
            response@ == "response"@,
            href@ == "href"@,
            collection@ == "collection"@,
            activelock@ == "activelock"@,
            from <= text.len(),
            member_views(out@) + members_from(xml@, from as int) == members_from(xml@, 0),
        decreases text.len() - from,
    {
        match element(text.as_slice(), from, response.as_slice()) {
            None => {
                proof {
                    assert(member_views(out@) + Seq::<MemberView>::empty() == member_views(out@));
                }
                return out;
            },
            Some((content, after)) => {
                let ghost before = out@;
                match element(content, 0, href.as_slice()) {
                    None => {},
                    Some((found, _)) => {
                        let member = Member {
                            href: unescape_chars(trim_of(found, Class::White)),
                            collection: has(content, collection.as_slice()),
                            locked: has(content, activelock.as_slice()),
                        };
                        proof {
                            assert(member_of(content@) == Some(member@));
                            assert(member_views(before.push(member)) == member_views(before).push(
                                member@,
                            ));
                            assert(member_views(before) + (seq![member@] + members_from(
                                xml@,
                                after as int,
                            )) == member_views(before).push(member@) + members_from(
                                xml@,
                                after as int,
                            ));
                        }
                        out.push(member);
                    },
                }
                from = after;
            },
        }
    }
}

/// The lock token a LOCK response carries: `<D:locktoken><D:href>`.
#[must_use]
pub fn lock_token(xml: &str) -> (res: Option<String>)
    ensures
        match res {
            Some(token) => token_in(xml@) == Some(token@),
            None => token_in(xml@) is None,
        },
{
    let text = chars_of(xml);
    let locktoken = chars_of("locktoken");
    let href = chars_of("href");
    let (content, _) = element(text.as_slice(), 0, locktoken.as_slice())?;
    let (found, _) = element(content, 0, href.as_slice())?;
    Some(unescape_chars(trim_of(found, Class::White)))
}

} // verus!
