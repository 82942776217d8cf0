//! What a client makes of any answer.

use vstd::prelude::*;
use crate::client::{
    judgement, listing_in, lock_in, member_in, members_listed, relative_href, relative_member,
    token_granted,
};
use crate::error::ErrorView;
use crate::laws::addresses::law_target;
use crate::laws::texts::lacks;
use crate::text::{decimal, text_of, trim, Class};
use crate::wire::{reason_text, succeeded, value_of, worth_repeating, ResponseView};
use crate::xml::{members_from, token_in, MemberView};

verus! {

/// The phrase that each status is written with.
pub proof fn law_phrases(status: u16)
    ensures
        status == 200 <==> reason_text(status) == "OK"@,
        status == 201 <==> reason_text(status) == "Created"@,
        status == 204 <==> reason_text(status) == "No Content"@,
        status == 207 <==> reason_text(status) == "Multi-Status"@,
        status == 400 <==> reason_text(status) == "Bad Request"@,
        status == 403 <==> reason_text(status) == "Forbidden"@,
        status == 404 <==> reason_text(status) == "Not Found"@,
        status == 405 <==> reason_text(status) == "Method Not Allowed"@,
        status == 409 <==> reason_text(status) == "Conflict"@,
        status == 423 <==> reason_text(status) == "Locked"@,
        status != 200 && status != 201 && status != 204 && status != 207 && status != 400 && status
            != 403 && status != 404 && status != 405 && status != 409 && status != 423
            <==> reason_text(status) == "Unknown"@,
{
    reveal_strlit("OK");
    reveal_strlit("Created");
    reveal_strlit("No Content");
    reveal_strlit("Multi-Status");
    reveal_strlit("Bad Request");
    reveal_strlit("Forbidden");
    reveal_strlit("Not Found");
    reveal_strlit("Method Not Allowed");
    reveal_strlit("Conflict");
    reveal_strlit("Locked");
    reveal_strlit("Unknown");
    assert("OK"@.len() == 2);
    assert("Created"@.len() == 7 && "Created"@[0] == 'C');
    assert("No Content"@.len() == 10);
    assert("Multi-Status"@.len() == 12);
    assert("Bad Request"@.len() == 11);
    assert("Forbidden"@.len() == 9 && "Forbidden"@[0] == 'F');
    assert("Not Found"@.len() == 9 && "Not Found"@[0] == 'N');
    assert("Method Not Allowed"@.len() == 18);
    assert("Conflict"@.len() == 8);
    assert("Locked"@.len() == 6);
    assert("Unknown"@.len() == 7 && "Unknown"@[0] == 'U');
}

/// An answer is the answer where it is a 2xx. Else it is a failure that names
/// the status, and is worth repeating for 5xx, 408, 423 and 429 alone.
pub proof fn law_judgement(response: ResponseView)
    ensures
        succeeded(response.status) <==> 200 <= response.status < 300,
        worth_repeating(response.status) <==> 500 <= response.status < 600 || response.status == 408
            || response.status == 423 || response.status == 429,
        200 <= response.status < 300 ==> judgement(response) == Ok::<ResponseView, ErrorView>(
            response,
        ),
        !(200 <= response.status < 300) ==> judgement(response) == Err::<ResponseView, ErrorView>(
            ErrorView {
                message: "the WebDAV server answered "@ + decimal(response.status as nat) + " "@
                    + reason_text(response.status),
                retryable: 500 <= response.status < 600 || response.status == 408
                    || response.status == 423 || response.status == 429,
            },
        ),
{
}

/// A listing is every member that the answer's text speaks of, in its order,
/// each with its href as a path; an answer that is no success is its failure.
pub proof fn law_listing_is_every_member(response: ResponseView)
    ensures
        200 <= response.status < 300 ==> {
            let read = members_from(text_of(response.body), 0);
            &&& listing_in(response) matches Ok(members) && members.len() == read.len() && forall|
                i: int,
            |
                0 <= i < read.len() ==> (#[trigger] members[i]).href == relative_href(read[i].href)
                    && members[i].collection == read[i].collection && members[i].locked
                    == read[i].locked
        },
        !(200 <= response.status < 300) ==> (listing_in(response) matches Err(error) && judgement(
            response,
        ) == Err::<ResponseView, ErrorView>(error)),
{
    let text = text_of(response.body);
    let read = members_from(text, 0);
    let members = members_listed(text);
    assert(members.len() == read.len());
    assert forall|i: int| 0 <= i < read.len() implies (#[trigger] members[i]).href == relative_href(
        read[i].href,
    ) && members[i].collection == read[i].collection && members[i].locked == read[i].locked by {
        assert(members[i] == relative_member(read[i]));
    }
}

/// What is there is the first member that the answer speaks of; nothing where
/// the answer is 404, or speaks of none; any other refusal is a failure.
pub proof fn law_found_is_the_first_member(response: ResponseView)
    ensures
        response.status == 404 ==> member_in(response) == Ok::<Option<MemberView>, ErrorView>(None),
        200 <= response.status < 300 ==> {
            let read = members_from(text_of(response.body), 0);
            &&& read.len() == 0 ==> member_in(response) == Ok::<Option<MemberView>, ErrorView>(None)
            &&& read.len() > 0 ==> member_in(response) == Ok::<Option<MemberView>, ErrorView>(
                Some(
                    MemberView {
                        href: relative_href(read[0].href),
                        collection: read[0].collection,
                        locked: read[0].locked,
                    },
                ),
            )
        },
        response.status != 404 && !(200 <= response.status < 300) ==> (member_in(
            response,
        ) matches Err(error) && judgement(response) == Err::<ResponseView, ErrorView>(error)),
{
    law_listing_is_every_member(response);
    if 200 <= response.status < 300 {
        let read = members_from(text_of(response.body), 0);
        let members = members_listed(text_of(response.body));
        if read.len() > 0 {
            assert(members[0] == relative_member(read[0]));
        }
    }
}

/// A lock's token is the one that the answer's text names; where it names
/// none, the one in the `Lock-Token` header, its angle brackets trimmed off;
/// where there is none either, the lock fails for good.
pub proof fn law_token_is_in_the_text_or_the_header(response: ResponseView)
    ensures
        ({
            let text = token_in(text_of(response.body));
            let header = value_of(response.headers, "lock-token"@);
            if !(200 <= response.status < 300) {
                lock_in(response) matches Err(error) && judgement(response) == Err::<
                    ResponseView,
                    ErrorView,
                >(error)
            } else if text is Some {
                lock_in(response) == Ok::<Seq<char>, ErrorView>(text->0)
            } else if header is Some {
                lock_in(response) == Ok::<Seq<char>, ErrorView>(trim(header->0, Class::Angle))
            } else {
                lock_in(response) == Err::<Seq<char>, ErrorView>(
                    ErrorView {
                        message: "a LOCK answered without a lock token"@,
                        retryable: false,
                    },
                )
            }
        }),
{
    assert(lock_in(response) == match judgement(response) {
        Err(error) => Err(error),
        Ok(r) => token_granted(text_of(r.body), value_of(r.headers, "lock-token"@)),
    });
}

/// A href that is a full URL, of either scheme, is its path, and the root
/// where it has none; any other href stays as it is.
pub proof fn law_href_is_a_path(authority: Seq<char>, path: Seq<char>)
    requires
        lacks(authority, '/'),
        path.len() > 0 ==> path[0] == '/',
    ensures
        ({
            let want = if path.len() > 0 {
                path
            } else {
                seq!['/']
            };
            &&& relative_href("http://"@ + authority + path) == want
            &&& relative_href("https://"@ + authority + path) == want
        }),
        forall|href: Seq<char>|
            !"http://"@.is_prefix_of(href) && !"https://"@.is_prefix_of(href)
                ==> #[trigger] relative_href(href) == href,
{
    law_target(authority, path);
}

} // verus!
