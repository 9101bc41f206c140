//! The user resource service: list the fixed set of records, echo a
//! created record, and dispatch a request by method and path to one of the
//! two operations, as a pure function from request to response.

use vstd::prelude::*;

use crate::json::{
    chars_vec, parse_user, parse_user_spec, serialize_user, serialize_users, user_json,
    user_views, users_array_json,
};
use crate::user::{user_view_valid, User, UserView};

verus! {

/// The request method, as far as the service tells methods apart. Anything
/// but a read or a write of the collection is `Other`.
#[derive(Clone, Copy, Debug, PartialEq, Eq, Structural)]
pub enum Method {
    Get,
    Post,
    Other,
}

/// A response: a status code and a body.
pub struct Response {
    pub status: u16,
    pub body: String,
}

/// The mathematical view of a [`Response`].
pub struct ResponseView {
    pub status: int,
    pub body: Seq<char>,
}

impl View for Response {
    type V = ResponseView;

    open spec fn view(&self) -> ResponseView {
        ResponseView { status: self.status as int, body: self.body@ }
    }
}

/// The records a list request returns: one statically known record. A
/// create request never changes this sequence.
pub open spec fn listed_users() -> Seq<UserView> {
    seq![UserView { id: 1, name: "Bob"@ }]
}

/// The path of the users collection.
pub open spec fn users_path() -> Seq<char> {
    "/api/users"@
}

/// The body of every successful list response.
pub open spec fn users_body() -> Seq<char> {
    users_array_json(listed_users())
}

/// Retrieve all users: always the same non-empty sequence, holding the one
/// statically known record.
pub fn get_users() -> (r: Vec<User>)
    ensures
        user_views(r@) == listed_users(),
        r@.len() >= 1,
{
    let mut r: Vec<User> = Vec::new();
    r.push(User { id: 1, name: String::from_str("Bob") });
    proof {
        assert(user_views(r@) =~= listed_users());
    }
    r
}

/// Create a user: the submitted record is returned unchanged and is not
/// stored anywhere.
pub fn create_user(u: User) -> (r: User)
    ensures
        r == u,
        r@ == u@,
{
    u
}

/// Whether two strings hold the same characters.
fn str_eq(a: &str, b: &str) -> (r: bool)
    ensures
        r == (a@ == b@),
{
    let va = chars_vec(a);
    let vb = chars_vec(b);
    if va.len() != vb.len() {
        return false;
    }
    let mut t: usize = 0;
    while t < va.len()
        invariant
            t <= va.len(),
            va.len() == vb.len(),
            va@ == a@,
            vb@ == b@,
            forall|x: int| 0 <= x < t ==> a@[x] == b@[x],
        decreases va.len() - t,
    {
        if va[t] != vb[t] {
            return false;
        }
        t = t + 1;
    }
    proof {
        assert(a@ =~= b@);
    }
    true
}

/// Handles one request to the service: the dispatch table from method and
/// path to operation. Reading the collection answers with the fixed
/// listing; writing it echoes the decoded record back; a body that does not
/// decode is a client error; everything else is not found, or not allowed
/// on the collection.
pub fn handle_request(method: Method, path: &str, body: &str) -> (r: Response)
    ensures
        path@ == users_path() && method is Get ==> r@.status == 200 && r@.body == users_body(),
        path@ == users_path() && method is Post ==> (match parse_user_spec(body@) {
            Some(u) => r@.status == 200 && r@.body == user_json(u),
            None => r@.status == 400 && r@.body == Seq::<char>::empty(),
        }),
        path@ == users_path() && method is Other ==> r@.status == 405 && r@.body == Seq::<char>::empty(),
        path@ != users_path() ==> r@.status == 404 && r@.body == Seq::<char>::empty(),
{
    if !str_eq(path, "/api/users") {
        return Response { status: 404, body: String::new() };
    }
    match method {
        Method::Get => {
            let users = get_users();
            let listing = serialize_users(&users);
            Response { status: 200, body: listing }
        },
        Method::Post => {
            match parse_user(body) {
                Ok(u) => {
                    let echoed = create_user(u);
                    let rendered = serialize_user(&echoed);
                    Response { status: 200, body: rendered }
                },
                Err(_) => Response { status: 400, body: String::new() },
            }
        },
        Method::Other => Response { status: 405, body: String::new() },
    }
}

/// A list request always answers with at least one record, and every
/// listed record is one a `User` value can hold: an integer identifier and
/// a textual name.
pub proof fn lemma_listing_nonempty()
    ensures
        listed_users().len() >= 1,
        forall|t: int| 0 <= t < listed_users().len() ==> user_view_valid(#[trigger] listed_users()[t]),
{
    assert(user_view_valid(listed_users()[0]));
}

/// Creating a record does not persist it: the listing stays the same fixed
/// sequence, so a record with any identifier other than the statically
/// known one is never listed afterwards.
pub proof fn lemma_create_not_persisted(u: UserView)
    requires
        u.id != 1,
    ensures
        forall|t: int| 0 <= t < listed_users().len() ==> (#[trigger] listed_users()[t]).id != u.id,
{
    assert(listed_users()[0].id == 1);
}

/// List responses are stable: any two responses that meet the list
/// contract of [`handle_request`] are equal, body ordering included.
pub proof fn lemma_list_responses_equal(r1: ResponseView, r2: ResponseView)
    requires
        r1.status == 200,
        r1.body == users_body(),
        r2.status == 200,
        r2.body == users_body(),
    ensures
        r1 == r2,
{
}

} // verus!
