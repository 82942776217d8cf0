//! The client's side: one method at a time, each a request answered before
//! the next is written, the connection kept alive between them.
//!
//! A method that is asked for gives the request to send, and a function of
//! its own reads the answer; whoever holds the connection moves the bytes.

use vstd::prelude::*;
use vstd::string::StringExecFns;
use vstd::utf8::encode_utf8;
use crate::error::{joined, protocol, protocol_error, ErrorView, TransportError};
use crate::target::{after_scheme, path_in, split_url, HttpTarget};
use crate::text::{
    chars_of, decimal, decimal_of, from_utf8_lossy, text_of, string_of, trim, trim_of, Class,
};
use crate::wire::{
    is_worth_repeating, reason, reason_text, request_bytes, succeeded, value_of, worth_repeating,
    write_request, Request, RequestView, Response, ResponseView,
};
use crate::xml::{
    lock_token, member_views, members, members_from, token_in, Member, MemberView,
};

verus! {

// ---------------------------------------------------------------------
// What is asked
// ---------------------------------------------------------------------

/// The body PROPFIND asks with: what a member is, and who holds it.
pub open spec fn propfind_body() -> Seq<char> {
    "<?xml version=\"1.0\" encoding=\"utf-8\"?><D:propfind xmlns:D=\"DAV:\"><D:prop><D:resourcetype/><D:lockdiscovery/></D:prop></D:propfind>"@
}

/// The body LOCK asks with: exclusive, for writing, owned by this node.
pub open spec fn lock_body() -> Seq<char> {
    "<?xml version=\"1.0\" encoding=\"utf-8\"?><D:lockinfo xmlns:D=\"DAV:\"><D:lockscope><D:exclusive/></D:lockscope><D:locktype><D:write/></D:locktype><D:owner>xmip</D:owner></D:lockinfo>"@
}

/// What is at `href`, and at depth `1` what it holds.
pub open spec fn propfind_request(href: Seq<char>, depth: Seq<char>) -> RequestView {
    RequestView::plain("PROPFIND"@, href).having("Depth"@, depth).having(
        "Content-Type"@,
        "application/xml"@,
    ).carrying(encode_utf8(propfind_body()))
}

/// Store `bytes` at `href`.
pub open spec fn put_request(href: Seq<char>, bytes: Seq<u8>) -> RequestView {
    RequestView::plain("PUT"@, href).having("Content-Type"@, "application/octet-stream"@).carrying(
        bytes,
    )
}

/// Remove `href` while holding its lock.
pub open spec fn delete_held_request(href: Seq<char>, token: Seq<char>) -> RequestView {
    RequestView::plain("DELETE"@, href).having("If"@, "(<"@ + token + ">)"@)
}

/// Take an exclusive write lock on `href`.
pub open spec fn lock_request(href: Seq<char>) -> RequestView {
    RequestView::plain("LOCK"@, href).having("Timeout"@, "Second-600"@).having(
        "Content-Type"@,
        "application/xml"@,
    ).carrying(encode_utf8(lock_body()))
}

/// Give the lock on `href` back.
pub open spec fn unlock_request(href: Seq<char>, token: Seq<char>) -> RequestView {
    RequestView::plain("UNLOCK"@, href).having("Lock-Token"@, "<"@ + token + ">"@)
}

/// A client of one server.
pub struct Client {
    authority: String,
}

impl Client {
    /// The host and port of the server.
    pub closed spec fn server(self) -> Seq<char> {
        self.authority@
    }

    /// The client of the server `target` names.
    #[must_use]
    pub fn connect(target: &HttpTarget) -> (res: Self)
        ensures
            res.server() == target@.authority,
    {
        Client { authority: target.authority.clone() }
    }

    /// The host and port this client is connected to.
    #[must_use]
    pub fn authority(&self) -> (res: &str)
        ensures
            res@ == self.server(),
    {
        self.authority.as_str()
    }

    /// The bytes that ask one request of the server, the connection kept.
    #[must_use]
    pub fn exchange(&self, request: Request) -> (res: Vec<u8>)
        ensures
            res@ == request_bytes(self.server(), request@.having("Connection"@, "keep-alive"@)),
    {
        let request = request.with_header("Connection", "keep-alive");
        write_request(self.authority.as_str(), &request)
    }

    /// Ask for the members of `collection`, PROPFIND Depth 1: the collection
    /// itself first, as servers list it, then what it holds.
    #[must_use]
    pub fn list(collection: &str) -> (res: Request)
        ensures
            res@ == propfind_request(collection@, "1"@),
    {
        Self::propfind(collection, "1")
    }

    /// Ask what PROPFIND Depth 0 says about `href`.
    #[must_use]
    pub fn find(href: &str) -> (res: Request)
        ensures
            res@ == propfind_request(href@, "0"@),
    {
        Self::propfind(href, "0")
    }

    /// PROPFIND.
    fn propfind(href: &str, depth: &str) -> (res: Request)
        ensures
            res@ == propfind_request(href@, depth@),
    {
        let body = "<?xml version=\"1.0\" encoding=\"utf-8\"?><D:propfind xmlns:D=\"DAV:\"><D:prop><D:resourcetype/><D:lockdiscovery/></D:prop></D:propfind>";
        Request::new("PROPFIND", href).with_header("Depth", depth).with_header(
            "Content-Type",
            "application/xml",
        ).with_body(body.as_bytes())
    }

    /// Ask for the bytes at `href`.
    #[must_use]
    pub fn get(href: &str) -> (res: Request)
        ensures
            res@ == RequestView::plain("GET"@, href@),
    {
        Request::new("GET", href)
    }

    /// Ask that `bytes` be stored at `href`.
    #[must_use]
    pub fn put(href: &str, bytes: &[u8]) -> (res: Request)
        ensures
            res@ == put_request(href@, bytes@),
    {
        Request::new("PUT", href).with_header(
            "Content-Type",
            "application/octet-stream",
        ).with_body(bytes)
    }

    /// Ask that `href` be removed.
    #[must_use]
    pub fn delete(href: &str) -> (res: Request)
        ensures
            res@ == RequestView::plain("DELETE"@, href@),
    {
        Request::new("DELETE", href)
    }

    /// Ask that `href` be removed while its lock is held, `token` presented
    /// in `If`.
    #[must_use]
    pub fn delete_held(href: &str, token: &str) -> (res: Request)
        ensures
            res@ == delete_held_request(href@, token@),
    {
        let mut condition = joined("(<", token);
        condition.append(">)");
        Request::new("DELETE", href).with_header("If", condition.as_str())
    }

    /// Ask that the collection `href` be created.
    #[must_use]
    pub fn mkcol(href: &str) -> (res: Request)
        ensures
            res@ == RequestView::plain("MKCOL"@, href@),
    {
        Request::new("MKCOL", href)
    }

    /// Ask for an exclusive write lock on `href`.
    #[must_use]
    pub fn lock(href: &str) -> (res: Request)
        ensures
            res@ == lock_request(href@),
    {
        let body = "<?xml version=\"1.0\" encoding=\"utf-8\"?><D:lockinfo xmlns:D=\"DAV:\"><D:lockscope><D:exclusive/></D:lockscope><D:locktype><D:write/></D:locktype><D:owner>xmip</D:owner></D:lockinfo>";
        Request::new("LOCK", href).with_header("Timeout", "Second-600").with_header(
            "Content-Type",
            "application/xml",
        ).with_body(body.as_bytes())
    }

    /// Ask that the lock `token` on `href` be given back.
    #[must_use]
    pub fn unlock(href: &str, token: &str) -> (res: Request)
        ensures
            res@ == unlock_request(href@, token@),
    {
        let mut header = joined("<", token);
        header.append(">");
        Request::new("UNLOCK", href).with_header("Lock-Token", header.as_str())
    }
}

// ---------------------------------------------------------------------
// What is answered
// ---------------------------------------------------------------------

/// What became of a request: the answer, or why none came.
pub open spec fn answer_view(answer: Result<Response, TransportError>) -> Result<
    ResponseView,
    ErrorView,
> {
    match answer {
        Ok(response) => Ok(response@),
        Err(error) => Err(error@),
    }
}

/// How the server's refusal with this status is judged.
pub open spec fn refusal(status: u16) -> ErrorView {
    ErrorView {
        message: "the WebDAV server answered "@ + decimal(status as nat) + " "@ + reason_text(
            status,
        ),
        retryable: worth_repeating(status),
    }
}

/// The answer where it is a 2xx, else the failure.
pub open spec fn judgement(response: ResponseView) -> Result<ResponseView, ErrorView> {
    if succeeded(response.status) {
        Ok(response)
    } else {
        Err(refusal(response.status))
    }
}

/// A href as a path, where the server wrote it as a full URL.
pub open spec fn relative_href(href: Seq<char>) -> Seq<char> {
    match after_scheme(href) {
        Some((_, rest)) => path_in(rest),
        None => href,
    }
}

/// A member, its href as a path.
pub open spec fn relative_member(member: MemberView) -> MemberView {
    MemberView { href: relative_href(member.href), ..member }
}

/// The members a multistatus lists, their hrefs as paths.
pub open spec fn members_listed(text: Seq<char>) -> Seq<MemberView> {
    members_from(text, 0).map_values(|m: MemberView| relative_member(m))
}

/// What a listing was answered.
pub open spec fn listing_in(response: ResponseView) -> Result<Seq<MemberView>, ErrorView> {
    match judgement(response) {
        Err(error) => Err(error),
        Ok(response) => Ok(members_listed(text_of(response.body))),
    }
}

/// What is there, of what a PROPFIND about one href was answered.
pub open spec fn member_in(response: ResponseView) -> Result<Option<MemberView>, ErrorView> {
    if response.status == 404 {
        Ok(None)
    } else {
        match listing_in(response) {
            Err(error) => Err(error),
            Ok(members) => Ok(
                if members.len() == 0 {
                    None
                } else {
                    Some(members[0])
                },
            ),
        }
    }
}

/// The lock token that an answer grants: in its text, else in its header.
pub open spec fn token_granted(text: Seq<char>, header: Option<Seq<char>>) -> Result<
    Seq<char>,
    ErrorView,
> {
    match token_in(text) {
        Some(token) => Ok(token),
        None => match header {
            Some(value) => Ok(trim(value, Class::Angle)),
            None => Err(protocol("a LOCK answered without a lock token"@)),
        },
    }
}

/// The lock token, of what a LOCK was answered.
pub open spec fn lock_in(response: ResponseView) -> Result<Seq<char>, ErrorView> {
    match judgement(response) {
        Err(error) => Err(error),
        Ok(response) => token_granted(
            text_of(response.body),
            value_of(response.headers, "lock-token"@),
        ),
    }
}

/// `Ok` for a 2xx, else the failure with HTTP's judgement of it — and 423
/// Locked worth repeating too, which HTTP alone does not say.
///
/// # Errors
/// Any status outside 2xx.
pub fn judged(response: Response) -> (res: Result<Response, TransportError>)
    ensures
        answer_view(res) == judgement(response@),
        res matches Ok(same) ==> same == response,
{
    let code = response.status;
    if code >= 200 && code < 300 {
        return Ok(response);
    }
    let mut message = joined("the WebDAV server answered ", decimal_of(code as u64).as_str());
    message.append(" ");
    message.append(reason(code));
    Err(TransportError { message, retryable: is_worth_repeating(code) })
}

/// A href as a path, where the server wrote it as a full URL.
fn path_of(href: &str) -> (res: String)
    ensures
        res@ == relative_href(href@),
{
    match split_url(href) {
        None => href.to_owned(),
        Some((_, _, path)) => path,
    }
}

/// A member's href as a path, where the server wrote it as a full URL.
pub fn relative(member: Member) -> (res: Member)
    ensures
        res@ == relative_member(member@),
{
    Member {
        href: path_of(member.href.as_str()),
        collection: member.collection,
        locked: member.locked,
    }
}

/// The members a multistatus lists, their hrefs as paths.
pub fn members_in(text: &str) -> (res: Vec<Member>)
    ensures
        member_views(res@) == members_listed(text@),
{
    let all = members(text);
    let mut out: Vec<Member> = Vec::new();
    let mut i: usize = 0;
    while i < all.len()
        invariant
            i <= all.len(),
            out.len() == i,
            forall|j: int| 0 <= j < i ==> (#[trigger] out@[j])@ == relative_member(all@[j]@),
        decreases all.len() - i,
    {
        let member = &all[i];
        let (collection, locked) = (member.collection, member.locked);
        out.push(Member { href: path_of(member.href.as_str()), collection, locked });
        i += 1;
    }
    proof {
        assert(member_views(all@).len() == all.len());
        assert(member_views(out@) =~= members_listed(text@));
    }
    out
}

/// Read what a listing was answered.
///
/// # Errors
/// Where the collection is not there or the server refused.
pub fn listed(response: Response) -> (res: Result<Vec<Member>, TransportError>)
    ensures
        match res {
            Ok(members) => listing_in(response@) == Ok::<Seq<MemberView>, ErrorView>(
                member_views(members@),
            ),
            Err(error) => listing_in(response@) == Err::<Seq<MemberView>, ErrorView>(error@),
        },
{
    match judged(response) {
        Err(error) => Err(error),
        Ok(response) => {
            let text = from_utf8_lossy(response.body.as_slice());
            Ok(members_in(text.as_str()))
        },
    }
}

/// Read what a PROPFIND about one href was answered: what is there, or
/// `None` when it is not.
///
/// # Errors
/// Where the server refused for any reason other than 404.
pub fn found(response: Response) -> (res: Result<Option<Member>, TransportError>)
    ensures
        match res {
            Ok(Some(member)) => member_in(response@) == Ok::<Option<MemberView>, ErrorView>(
                Some(member@),
            ),
            Ok(None) => member_in(response@) == Ok::<Option<MemberView>, ErrorView>(None),
            Err(error) => member_in(response@) == Err::<Option<MemberView>, ErrorView>(error@),
        },
{
    if response.status == 404 {
        return Ok(None);
    }
    match listed(response) {
        Err(error) => Err(error),
        Ok(members) => {
            let mut members = members;
            if members.len() == 0 {
                Ok(None)
            } else {
                Ok(Some(members.remove(0)))
            }
        },
    }
}

/// Read what a GET was answered: the bytes.
///
/// # Errors
/// Where it is not there or the server refused.
pub fn fetched(response: Response) -> (res: Result<Vec<u8>, TransportError>)
    ensures
        match res {
            Ok(bytes) => succeeded(response.status) && bytes@ == response@.body,
            Err(error) => !succeeded(response.status) && error@ == refusal(response.status),
        },
{
    match judged(response) {
        Err(error) => Err(error),
        Ok(response) => Ok(response.body),
    }
}

/// Read what a request was answered that has only to succeed: PUT, DELETE,
/// MKCOL, UNLOCK.
///
/// # Errors
/// Where the server refused: what it names is not there or already exists,
/// somebody holds a lock on it, or the token is not the lock's.
pub fn carried_out(response: Response) -> (res: Result<(), TransportError>)
    ensures
        match res {
            Ok(_) => succeeded(response.status),
            Err(error) => !succeeded(response.status) && error@ == refusal(response.status),
        },
{
    match judged(response) {
        Err(error) => Err(error),
        Ok(_) => Ok(()),
    }
}

/// The lock token that an answer with this text grants, or else one with
/// this `Lock-Token` header.
///
/// # Errors
/// Where there is a token in neither.
pub fn granted_token(text: &str, header: Option<&str>) -> (res: Result<String, TransportError>)
    ensures
        match res {
            Ok(token) => token_granted(
                text@,
                match header {
                    Some(value) => Some(value@),
                    None => None,
                },
            ) == Ok::<Seq<char>, ErrorView>(token@),
            Err(error) => token_granted(
                text@,
                match header {
                    Some(value) => Some(value@),
                    None => None,
                },
            ) == Err::<Seq<char>, ErrorView>(error@),
        },
{
    if let Some(token) = lock_token(text) {
        return Ok(token);
    }
    match header {
        Some(value) => {
            let value = chars_of(value);
            Ok(string_of(trim_of(value.as_slice(), Class::Angle)))
        },
        None => Err(protocol_error("a LOCK answered without a lock token".to_owned())),
    }
}

/// Read what a LOCK was answered: the token that names the lock.
///
/// # Errors
/// Where somebody else holds it — 423, retryable — or the server refused,
/// or answered without a token.
pub fn locked(response: Response) -> (res: Result<String, TransportError>)
    ensures
        match res {
            Ok(token) => lock_in(response@) == Ok::<Seq<char>, ErrorView>(token@),
            Err(error) => lock_in(response@) == Err::<Seq<char>, ErrorView>(error@),
        },
{
    match judged(response) {
        Err(error) => Err(error),
        Ok(response) => {
            let text = from_utf8_lossy(response.body.as_slice());
            granted_token(text.as_str(), response.header("lock-token"))
        },
    }
}

} // verus!
