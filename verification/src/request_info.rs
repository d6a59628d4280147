//! What the logging middleware records of the user behind a request.

use vstd::prelude::*;
use vstd::string::*;

verus! {

/// The address, fingerprint and user agent of a request's user.
#[derive(Debug)]
pub struct UserInfoExt {
    pub ip: String,
    pub fingerprint: String,
    pub user_agent: String,
}

/// `a; b; c`.
pub open spec fn info_line(a: Seq<char>, b: Seq<char>, c: Seq<char>) -> Seq<char> {
    a + seq![';', ' '] + b + seq![';', ' '] + c
}

impl UserInfoExt {
    /// The log line of the user: the address, the user agent and the hashed
    /// fingerprint, separated by `; `.
    pub fn describe(&self, hashed_fingerprint: &str) -> (r: String)
        ensures
            r@ == info_line(self.ip@, self.user_agent@, hashed_fingerprint@),
    {
        let sep = "; ";
        proof {
            reveal_strlit("; ");
        }
        let mut r = self.ip.clone();
        r.append(sep);
        r.append(self.user_agent.as_str());
        r.append(sep);
        r.append(hashed_fingerprint);
        assert(r@ =~= info_line(self.ip@, self.user_agent@, hashed_fingerprint@));
        r
    }
}

} // verus!
