use vstd::prelude::*;

use crate::dtos::User;
use crate::errors::UserError;
use crate::payload::str_eq;

verus! {

/// The mathematical value of a user account.
pub struct UserView {
    pub name: Seq<char>,
    pub pass: Seq<char>,
}

impl View for User {
    type V = UserView;

    open spec fn view(&self) -> UserView {
        UserView { name: self.name@, pass: self.pass@ }
    }
}

impl Clone for User {
    fn clone(&self) -> (res: Self)
        ensures
            res@ == self@,
    {
        User { name: self.name.clone(), pass: self.pass.clone() }
    }
}

/// The view of a user list.
pub open spec fn users_view(s: Seq<User>) -> Seq<UserView> {
    s.map_values(|u: User| u@)
}

pub proof fn lemma_users_view_push(s: Seq<User>, u: User)
    ensures
        users_view(s.push(u)) == users_view(s).push(u@),
{
    assert(users_view(s.push(u)) =~= users_view(s).push(u@));
}

/// The first position in `s` holding an account with the given name, or
/// -1 when the name is unknown.
pub open spec fn user_index(s: Seq<UserView>, name: Seq<char>) -> int
    decreases s.len(),
{
    if s.len() == 0 {
        -1
    } else if s[0].name == name {
        0
    } else {
        let r = user_index(s.drop_first(), name);
        if r == -1 {
            -1
        } else {
            r + 1
        }
    }
}

pub proof fn lemma_user_index_props(s: Seq<UserView>, name: Seq<char>)
    ensures
        ({
            let r = user_index(s, name);
            &&& (r == -1 <==> forall|k: int| 0 <= k < s.len() ==> (#[trigger] s[k]).name != name)
            &&& (r != -1 ==> 0 <= r < s.len() && s[r].name == name && (forall|k: int|
                0 <= k < r ==> (#[trigger] s[k]).name != name))
        }),
    decreases s.len(),
{
    if s.len() == 0 {
    } else if s[0].name == name {
    } else {
        lemma_user_index_props(s.drop_first(), name);
        assert(forall|k: int| 1 <= k < s.len() ==> (#[trigger] s[k]) == s.drop_first()[k - 1]);
    }
}

/// Registers an account: rejected exactly when the name is already
/// taken; otherwise the account is appended to the list.
pub fn create_user(users: &mut Vec<User>, payload: User) -> (r: Result<(), UserError>)
    ensures
        match r {
            Result::Ok(_) => user_index(users_view(old(users)@), payload.name@) == -1
                && users_view(final(users)@) == users_view(old(users)@).push(payload@),
            Result::Err(e) => e == UserError::AlreadyExists && user_index(
                users_view(old(users)@),
                payload.name@,
            ) != -1 && final(users)@ == old(users)@,
        },
{
    let ghost pre = users_view(users@);
    let n = users.len();
    let mut i: usize = 0;
    while i < n
        invariant
            n == users.len(),
            i <= n,
            users@ == old(users)@,
            pre == users_view(users@),
            forall|k: int| 0 <= k < i ==> (#[trigger] pre[k]).name != payload.name@,
        decreases n - i,
    {
        if str_eq(users[i].name.as_str(), payload.name.as_str()) {
            proof {
                lemma_user_index_props(pre, payload.name@);
                assert(pre.len() == users@.len());
                assert(pre[i as int].name == payload.name@);
            }
            return Result::Err(UserError::AlreadyExists);
        }
        i = i + 1;
    }
    proof {
        lemma_user_index_props(pre, payload.name@);
        assert(pre.len() == users@.len());
        assert(user_index(pre, payload.name@) == -1);
    }
    let ghost prev = users@;
    users.push(payload);
    proof {
        lemma_users_view_push(prev, users@.last());
    }
    Result::Ok(())
}

/// Checks a login attempt: the first account carrying the name decides.
/// Succeeds exactly when that account exists and its password matches;
/// an unknown name and a wrong password are told apart.
pub fn login(users: &Vec<User>, name: &str, pass: &str) -> (r: Result<(), UserError>)
    ensures
        ({
            let i = user_index(users_view(users@), name@);
            match r {
                Result::Ok(_) => i != -1 && users_view(users@)[i].pass == pass@,
                Result::Err(e) => (e == UserError::UnknownUser && i == -1) || (e
                    == UserError::WrongPassword && i != -1 && users_view(users@)[i].pass != pass@),
            }
        }),
{
    let ghost sv = users_view(users@);
    let n = users.len();
    let mut i: usize = 0;
    while i < n
        invariant
            n == users.len(),
            i <= n,
            sv == users_view(users@),
            forall|k: int| 0 <= k < i ==> (#[trigger] sv[k]).name != name@,
        decreases n - i,
    {
        if str_eq(users[i].name.as_str(), name) {
            proof {
                lemma_user_index_props(sv, name@);
                assert(sv.len() == users@.len());
                assert(sv[i as int].name == name@);
                let r = user_index(sv, name@);
                assert(r != -1);
                if r < i as int {
                    assert(sv[r].name != name@);
                }
                if r > i as int {
                    assert(sv[i as int].name != name@);
                }
                assert(r == i as int);
            }
            if str_eq(users[i].pass.as_str(), pass) {
                return Result::Ok(());
            } else {
                return Result::Err(UserError::WrongPassword);
            }
        }
        i = i + 1;
    }
    proof {
        lemma_user_index_props(sv, name@);
        assert(sv.len() == users@.len());
        assert(user_index(sv, name@) == -1);
    }
    Result::Err(UserError::UnknownUser)
}

} // verus!
