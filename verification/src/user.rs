//! The `User` record: the one entity of the service, together with its
//! mathematical view and the service's single error kind.

use vstd::prelude::*;

verus! {

/// A user record: an integer identifier and a free-form name.
/// No invariant holds beyond the shape itself.
#[derive(Debug)]
pub struct User {
    pub id: i32,
    pub name: String,
}

/// The mathematical view of a [`User`]: the identifier as an unbounded
/// integer and the name as a sequence of characters.
pub struct UserView {
    pub id: int,
    pub name: Seq<char>,
}

impl View for User {
    type V = UserView;

    open spec fn view(&self) -> UserView {
        UserView { id: self.id as int, name: self.name@ }
    }
}

/// A view that some `User` value can actually hold: its identifier fits in
/// 32 signed bits. The name is unconstrained.
pub open spec fn user_view_valid(u: UserView) -> bool {
    i32::MIN <= u.id <= i32::MAX
}

/// The service's single error kind: the request body does not decode into
/// the expected record shape.
#[derive(Clone, Copy, Debug, PartialEq, Eq, Structural)]
pub enum RequestError {
    MalformedRequest,
}

} // verus!
