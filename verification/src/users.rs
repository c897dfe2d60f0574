//! The gateway's in-memory user store: sign-up with unique usernames and
//! sign-in by username and password.

use vstd::prelude::*;

verus! {

/// A user stored in the gateway's in-memory list.
pub struct User {
    pub id: u64,
    pub username: String,
    pub password: String,
}

/// Registered users, in sign-up order, and the id counter.
pub struct UserStore {
    users: Vec<User>,
    user_index: u64,
}

/// The abstract store: the users as (id, username, password), in sign-up
/// order, and the last id handed out.
pub struct StoreView {
    pub users: Seq<(u64, Seq<char>, Seq<char>)>,
    pub user_index: u64,
}

pub open spec fn user_view(u: User) -> (u64, Seq<char>, Seq<char>) {
    (u.id, u.username@, u.password@)
}

impl View for UserStore {
    type V = StoreView;

    closed spec fn view(&self) -> StoreView {
        StoreView { users: self.users@.map_values(|u: User| user_view(u)), user_index: self.user_index }
    }
}

/// Some user has this username.
pub open spec fn name_taken(users: Seq<(u64, Seq<char>, Seq<char>)>, name: Seq<char>) -> bool {
    exists|i: int| 0 <= i < users.len() && users[i].1 == name
}

/// The id of the first user with these credentials.
pub open spec fn first_match(users: Seq<(u64, Seq<char>, Seq<char>)>, name: Seq<char>, password: Seq<char>) -> Option<u64>
    decreases users.len(),
{
    if users.len() == 0 {
        None
    } else if users[0].1 == name && users[0].2 == password {
        Some(users[0].0)
    } else {
        first_match(users.drop_first(), name, password)
    }
}

/// No two users share a username.
pub open spec fn names_unique(users: Seq<(u64, Seq<char>, Seq<char>)>) -> bool {
    forall|i: int, j: int| 0 <= i < j < users.len() ==> #[trigger] users[i].1 != #[trigger] users[j].1
}

/// Law (usernames are unique): sign-up refuses a taken name, so the store
/// never holds one username twice.
pub proof fn law_signup_keeps_names_unique(users: Seq<(u64, Seq<char>, Seq<char>)>, id: u64, name: Seq<char>, password: Seq<char>)
    requires
        names_unique(users),
        !name_taken(users, name),
    ensures
        names_unique(users.push((id, name, password))),
{
    let t = users.push((id, name, password));
    assert forall|i: int, j: int| 0 <= i < j < t.len() implies #[trigger] t[i].1 != #[trigger] t[j].1 by {
        if j == users.len() {
            assert(t[i] == users[i]);
        } else {
            assert(t[i] == users[i] && t[j] == users[j]);
        }
    }
}

/// Law (sign-in finds the new user): right after signing up with a free
/// username, signing in with that username and password gives the new id.
pub proof fn law_signin_after_signup(users: Seq<(u64, Seq<char>, Seq<char>)>, id: u64, name: Seq<char>, password: Seq<char>)
    requires
        !name_taken(users, name),
    ensures
        first_match(users.push((id, name, password)), name, password) == Some(id),
    decreases users.len(),
{
    let t = users.push((id, name, password));
    if users.len() == 0 {
        assert(t[0] == (id, name, password));
    } else {
        assert(users[0].1 != name);
        assert(t[0] == users[0]);
        assert(t.drop_first() =~= users.drop_first().push((id, name, password)));
        assert forall|i: int| 0 <= i < users.drop_first().len() implies users.drop_first()[i].1 != name by {
            assert(users.drop_first()[i] == users[i + 1]);
        }
        law_signin_after_signup(users.drop_first(), id, name, password);
    }
}

/// Law (sign-in finds the first user with the credentials): sign-in
/// succeeds exactly when some stored user, at any position, has this
/// username and password, and then gives the id of the first such user.
pub proof fn law_signin_finds_first(users: Seq<(u64, Seq<char>, Seq<char>)>, name: Seq<char>, password: Seq<char>)
    ensures
        (exists|i: int| 0 <= i < users.len() && #[trigger] users[i].1 == name && users[i].2 == password) <==> first_match(
            users,
            name,
            password,
        ) is Some,
        first_match(users, name, password) matches Some(id) ==> exists|i: int|
            0 <= i < users.len() && #[trigger] users[i].1 == name && users[i].2 == password && users[i].0 == id
                && forall|j: int| 0 <= j < i ==> !(#[trigger] users[j].1 == name && users[j].2 == password),
    decreases users.len(),
{
    if users.len() == 0 {
        return;
    }
    if users[0].1 == name && users[0].2 == password {
        assert(users[0].1 == name);
        return;
    }
    let t = users.drop_first();
    law_signin_finds_first(t, name, password);
    if exists|i: int| 0 <= i < users.len() && #[trigger] users[i].1 == name && users[i].2 == password {
        let i = choose|i: int| 0 <= i < users.len() && #[trigger] users[i].1 == name && users[i].2 == password;
        assert(i > 0);
        assert(t[i - 1] == users[i]);
        assert(t[i - 1].1 == name);
    }
    if first_match(t, name, password) is Some {
        let id = first_match(t, name, password)->0;
        let k = choose|k: int|
            0 <= k < t.len() && #[trigger] t[k].1 == name && t[k].2 == password && t[k].0 == id && forall|j: int|
                0 <= j < k ==> !(#[trigger] t[j].1 == name && t[j].2 == password);
        assert(users[k + 1] == t[k]);
        assert forall|j: int| 0 <= j < k + 1 implies !(#[trigger] users[j].1 == name && users[j].2 == password) by {
            if j > 0 {
                assert(users[j] == t[j - 1]);
                assert(!(t[j - 1].1 == name && t[j - 1].2 == password));
            }
        }
        assert(users[k + 1].1 == name);
    }
}

/// Law (later sign-ups do not change a sign-in): once some user can sign in
/// with a username and password, signing up more users does not change what
/// that sign-in gives.
pub proof fn law_signin_ignores_later_signups(
    users: Seq<(u64, Seq<char>, Seq<char>)>,
    more: Seq<(u64, Seq<char>, Seq<char>)>,
    name: Seq<char>,
    password: Seq<char>,
)
    ensures
        first_match(users, name, password) is Some ==> first_match(users + more, name, password) == first_match(
            users,
            name,
            password,
        ),
    decreases users.len(),
{
    if users.len() == 0 {
        return;
    }
    let all = users + more;
    assert(all[0] == users[0]);
    if !(users[0].1 == name && users[0].2 == password) {
        assert(all.drop_first() =~= users.drop_first() + more);
        law_signin_ignores_later_signups(users.drop_first(), more, name, password);
    }
}

impl UserStore {
    /// No users; the first sign-up gets id 1.
    pub fn new() -> (s: Self)
        ensures
            s@.users == Seq::<(u64, Seq<char>, Seq<char>)>::empty(),
            s@.user_index == 0,
    {
        let s = UserStore { users: Vec::new(), user_index: 0 };
        assert(s@.users =~= Seq::<(u64, Seq<char>, Seq<char>)>::empty());
        s
    }

    /// The last id handed out.
    pub fn user_index(&self) -> (i: u64)
        ensures
            i == self@.user_index,
    {
        self.user_index
    }

    /// Whether some user has this username.
    pub fn username_taken(&self, username: &String) -> (b: bool)
        ensures
            b == name_taken(self@.users, username@),
    {
        let mut i: usize = 0;
        while i < self.users.len()
            invariant
                0 <= i <= self.users@.len(),
                forall|j: int| 0 <= j < i ==> (#[trigger] self.users@[j]).username@ != username@,
            decreases self.users@.len() - i,
        {
            if self.users[i].username == *username {
                proof {
                    assert(self@.users[i as int].1 == username@);
                }
                return true;
            }
            i = i + 1;
        }
        proof {
            assert forall|j: int| 0 <= j < self@.users.len() implies #[trigger] self@.users[j].1 != username@ by {
                assert(self@.users[j] == user_view(self.users@[j]));
            }
        }
        false
    }

    /// Sign up: refused (`None`) when the username is taken; otherwise the
    /// user is stored under the next id, which is returned.
    pub fn signup(&mut self, username: &String, password: &String) -> (r: Option<u64>)
        requires
            name_taken(old(self)@.users, username@) || old(self)@.user_index < u64::MAX,
        ensures
            name_taken(old(self)@.users, username@) ==> r == None::<u64> && final(self)@ == old(self)@,
            !name_taken(old(self)@.users, username@) ==> {
                let id = (old(self)@.user_index + 1) as u64;
                &&& r == Some(id)
                &&& final(self)@ == (StoreView {
                    users: old(self)@.users.push((id, username@, password@)),
                    user_index: id,
                })
            },
    {
        if self.username_taken(username) {
            return None;
        }
        let id = self.user_index + 1;
        self.user_index = id;
        self.users.push(User { id, username: username.clone(), password: password.clone() });
        proof {
            assert(self@.users =~= old(self)@.users.push((id, username@, password@)));
        }
        Some(id)
    }

    /// Sign in: the id of the first user with this username and password.
    pub fn signin(&self, username: &String, password: &String) -> (r: Option<u64>)
        ensures
            r == first_match(self@.users, username@, password@),
            (exists|i: int| 0 <= i < self@.users.len() && #[trigger] self@.users[i].1 == username@ && self@.users[i].2
                == password@) ==> r is Some,
            r matches Some(id) ==> exists|i: int|
                0 <= i < self@.users.len() && #[trigger] self@.users[i].1 == username@ && self@.users[i].2 == password@
                    && self@.users[i].0 == id && forall|j: int|
                    0 <= j < i ==> !(#[trigger] self@.users[j].1 == username@ && self@.users[j].2 == password@),
    {
        proof {
            law_signin_finds_first(self@.users, username@, password@);
        }
        let ghost all = self@.users;
        let mut i: usize = 0;
        assert(all.skip(0) =~= all);
        while i < self.users.len()
            invariant
                0 <= i <= self.users@.len(),
                all == self@.users,
                first_match(all, username@, password@) == first_match(all.skip(i as int), username@, password@),
            decreases self.users@.len() - i,
        {
            proof {
                assert(all.skip(i as int).drop_first() =~= all.skip(i + 1));
                assert(all.skip(i as int)[0] == user_view(self.users@[i as int]));
            }
            if self.users[i].username == *username && self.users[i].password == *password {
                proof {
                    law_signin_finds_first(self@.users, username@, password@);
                }
                return Some(self.users[i].id);
            }
            i = i + 1;
        }
        assert(all.skip(i as int) =~= Seq::<(u64, Seq<char>, Seq<char>)>::empty());
        None
    }

    /// Forget every user and start ids again from 1.
    pub fn reset(&mut self)
        ensures
            final(self)@.users == Seq::<(u64, Seq<char>, Seq<char>)>::empty(),
            final(self)@.user_index == 0,
    {
        self.users.clear();
        self.user_index = 0;
        assert(self@.users =~= Seq::<(u64, Seq<char>, Seq<char>)>::empty());
    }
}

} // verus!
