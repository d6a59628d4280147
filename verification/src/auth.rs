//! The decisions of the authentication middleware: where a request's access
//! token is taken from, and what happens to a request without a valid one.

use vstd::prelude::*;
use vstd::string::*;
use crate::text::{chars_of, string_of_range};
use crate::patterns::pairs_view;
use crate::access::STATUS_UNAUTHORIZED;

verus! {

/// The name-value pairs that `form_urlencoded::parse` reads from `input`.
pub uninterp spec fn url_pairs(input: Seq<u8>) -> Seq<(Seq<char>, Seq<char>)>;

/// Every byte of `input` is ASCII and none is `%` or `+`: nothing in it is
/// percent- or plus-encoded.
pub open spec fn plain_query(input: Seq<u8>) -> bool {
    forall|i: int| 0 <= i < input.len() ==> #[trigger] input[i] < 128 && input[i] != 37 && input[i] != 43
}

/// The characters of ASCII bytes, byte for byte.
pub open spec fn ascii_chars(input: Seq<u8>) -> Seq<char> {
    input.map_values(|b: u8| b as char)
}

/// A piece of a query split at its first `=` into name and value; a piece
/// without `=` is a name with an empty value.
pub open spec fn name_value(piece: Seq<char>) -> (Seq<char>, Seq<char>)
    decreases piece.len(),
{
    if piece.len() == 0 {
        (Seq::empty(), Seq::empty())
    } else if piece[0] == '=' {
        (Seq::empty(), piece.drop_first())
    } else {
        (seq![piece[0]] + name_value(piece.drop_first()).0, name_value(piece.drop_first()).1)
    }
}

/// The pairs of the query `input` when `piece` has been read of the current
/// piece: the pieces between `&`s, in order, the empty ones left out, each
/// split at its first `=`.
pub open spec fn pairs_from(input: Seq<char>, piece: Seq<char>) -> Seq<(Seq<char>, Seq<char>)>
    decreases input.len(),
{
    if input.len() == 0 {
        if piece.len() == 0 {
            Seq::empty()
        } else {
            seq![name_value(piece)]
        }
    } else if input[0] == '&' {
        let rest = pairs_from(input.drop_first(), Seq::empty());
        if piece.len() == 0 {
            rest
        } else {
            seq![name_value(piece)] + rest
        }
    } else {
        pairs_from(input.drop_first(), piece.push(input[0]))
    }
}

/// The name-value pairs of a query that holds nothing encoded: its pieces
/// between `&`s, in order, the empty ones left out, each split at its first `=`.
pub open spec fn plain_pairs(input: Seq<char>) -> Seq<(Seq<char>, Seq<char>)> {
    pairs_from(input, Seq::empty())
}

/// `form_urlencoded::parse`: the name-value pairs of an
/// `application/x-www-form-urlencoded` byte string, in order, each
/// percent-decoded. The contract names the result; of a query of ASCII bytes
/// with no `%` and no `+` (where decoding changes nothing) it states the
/// pairs: the pieces between `&`s, the empty ones left out, each split at its
/// first `=` (as `Parse::next` splits them).
#[verifier::external_body]
fn parse_query(input: &[u8]) -> (r: Vec<(String, String)>)
    ensures
        pairs_view(r@) == url_pairs(input@),
        plain_query(input@) ==> pairs_view(r@) == plain_pairs(ascii_chars(input@)),
{
    form_urlencoded::parse(input).map(|(k, v)| (k.into_owned(), v.into_owned())).collect()
}

/// Nothing in the text `q` is percent- or plus-encoded: it is ASCII and
/// holds no `%` and no `+`.
pub open spec fn plain_text(q: Seq<char>) -> bool {
    forall|i: int| 0 <= i < q.len() ==> '\0' <= #[trigger] q[i] <= '\u{7f}' && q[i] != '%' && q[i] != '+'
}

/// The bytes of a plain text are plain, and read back as the text.
proof fn lemma_plain_bytes(q: &str)
    requires
        plain_text(q@),
    ensures
        plain_query(q.spec_bytes()),
        ascii_chars(q.spec_bytes()) == q@,
{
    assert(is_ascii(q));
    is_ascii_spec_bytes(q);
    let b = q.spec_bytes();
    assert forall|i: int| 0 <= i < b.len() implies #[trigger] b[i] < 128 && b[i] != 37 && b[i] != 43 by {
        assert(b[i] == q@[i] as u8);
        let c = q@[i];
        assert(c != '%' && c != '+');
        assert('\0' <= c <= '\u{7f}');
    }
    assert(ascii_chars(b) =~= q@);
}

/// The value of the first pair of `pairs` whose name is `k`.
pub open spec fn first_value(pairs: Seq<(Seq<char>, Seq<char>)>, k: Seq<char>) -> Option<Seq<char>>
    decreases pairs.len(),
{
    if pairs.len() == 0 {
        None
    } else if pairs[0].0 == k {
        Some(pairs[0].1)
    } else {
        first_value(pairs.drop_first(), k)
    }
}

/// `token`, the name of the query parameter that carries an access token.
pub open spec fn token_name() -> Seq<char> {
    seq!['t', 'o', 'k', 'e', 'n']
}

/// `Bearer `, the prefix of an access token in the `Authorization` header.
pub open spec fn bearer_prefix() -> Seq<char> {
    seq!['B', 'e', 'a', 'r', 'e', 'r', ' ']
}

/// The value of the first pair named `token`.
pub fn find_token(pairs: &Vec<(String, String)>) -> (r: Option<String>)
    ensures
        match r {
            Some(v) => first_value(pairs_view(pairs@), token_name()) == Some(v@),
            None => first_value(pairs_view(pairs@), token_name()) is None,
        },
{
    let name = "token";
    proof {
        reveal_strlit("token");
    }
    let name = name.to_string();
    let mut i: usize = 0;
    assert(pairs_view(pairs@).skip(0) =~= pairs_view(pairs@));
    while i < pairs.len()
        invariant
            i <= pairs@.len(),
            name@ == token_name(),
            first_value(pairs_view(pairs@).skip(i as int), token_name()) == first_value(pairs_view(pairs@), token_name()),
        decreases pairs@.len() - i,
    {
        assert(pairs_view(pairs@).skip(i as int).drop_first() =~= pairs_view(pairs@).skip(i + 1));
        assert(pairs_view(pairs@).skip(i as int)[0] == (pairs@[i as int].0@, pairs@[i as int].1@));
        if pairs[i].0 == name {
            return Some(pairs[i].1.clone());
        }
        i = i + 1;
    }
    None
}

/// The access token of a query string: the first `token` parameter.
pub fn query_token(query: Option<&str>) -> (r: Option<String>)
    ensures
        match query {
            None => r is None,
            Some(q) => match r {
                Some(v) => first_value(url_pairs(q.spec_bytes()), token_name()) == Some(v@),
                None => first_value(url_pairs(q.spec_bytes()), token_name()) is None,
            },
        },
        match query {
            Some(q) => plain_text(q@) ==> match r {
                Some(v) => first_value(plain_pairs(q@), token_name()) == Some(v@),
                None => first_value(plain_pairs(q@), token_name()) is None,
            },
            None => true,
        },
{
    match query {
        None => None,
        Some(q) => {
            let pairs = parse_query(q.as_bytes());
            proof {
                if plain_text(q@) {
                    lemma_plain_bytes(q);
                }
            }
            find_token(&pairs)
        },
    }
}

/// The access token of an `Authorization` header value: what follows `Bearer `.
pub fn bearer_token(header: Option<&str>) -> (r: Option<String>)
    ensures
        match header {
            Some(h) => if bearer_prefix().is_prefix_of(h@) {
                r matches Some(t) && t@ == h@.skip(7)
            } else {
                r is None
            },
            None => r is None,
        },
{
    match header {
        None => None,
        Some(h) => {
            let cs = chars_of(h);
            let prefix = chars_of("Bearer ");
            proof {
                reveal_strlit("Bearer ");
                assert(prefix@ =~= bearer_prefix());
            }
            assert(bearer_prefix().len() == 7);
            if cs.len() < 7 {
                return None;
            }
            let mut k: usize = 0;
            while k < 7
                invariant
                    k <= 7,
                    header == Some(h),
                    cs@ == h@,
                    cs@.len() >= 7,
                    prefix@ == bearer_prefix(),
                    forall|j: int| 0 <= j < k ==> cs@[j] == prefix@[j],
                decreases 7 - k,
            {
                if cs[k] != prefix[k] {
                    assert(h@.subrange(0, 7)[k as int] == cs@[k as int]);
                    assert(h@.subrange(0, 7) != bearer_prefix());
                    return None;
                }
                k = k + 1;
            }
            assert(bearer_prefix() =~= cs@.subrange(0, 7));
            let t = string_of_range(&cs, 7, cs.len());
            assert(t@ =~= h@.skip(7));
            Some(t)
        },
    }
}

/// A piece read up to the end of a query with no `&` gives one pair (none
/// where it is empty).
proof fn lemma_pairs_one_piece(input: Seq<char>, piece: Seq<char>)
    requires
        !input.contains('&'),
    ensures
        pairs_from(input, piece) == if (piece + input).len() == 0 {
            Seq::<(Seq<char>, Seq<char>)>::empty()
        } else {
            seq![name_value(piece + input)]
        },
    decreases input.len(),
{
    if input.len() > 0 {
        assert(input[0] != '&');
        assert(!input.drop_first().contains('&')) by {
            assert forall|i: int| 0 <= i < input.drop_first().len() implies input.drop_first()[i] != '&' by {
                assert(input.drop_first()[i] == input[i + 1]);
            }
        }
        lemma_pairs_one_piece(input.drop_first(), piece.push(input[0]));
        assert(piece.push(input[0]) + input.drop_first() =~= piece + input);
    } else {
        assert(piece + input =~= piece);
    }
}

/// A piece whose name holds no `=` splits into that name and what follows
/// the `=` after it.
proof fn lemma_name_value_split(name: Seq<char>, value: Seq<char>)
    requires
        !name.contains('='),
    ensures
        name_value(name + seq!['='] + value) == (name, value),
    decreases name.len(),
{
    let piece = name + seq!['='] + value;
    if name.len() == 0 {
        assert(piece[0] == '=');
        assert(piece.drop_first() =~= value);
    } else {
        assert(piece[0] == name[0]);
        assert(!name.drop_first().contains('=')) by {
            assert forall|i: int| 0 <= i < name.drop_first().len() implies name.drop_first()[i] != '=' by {
                assert(name.drop_first()[i] == name[i + 1]);
            }
        }
        lemma_name_value_split(name.drop_first(), value);
        assert(piece.drop_first() =~= name.drop_first() + seq!['='] + value);
        assert(seq![name[0]] + name.drop_first() =~= name);
    }
}

/// A query `token=V`, with `V` holding no `&`, carries the token `V`
/// character for character: the query's pairs are its pieces, not altered.
pub proof fn law_token_query_value(v: Seq<char>)
    requires
        !v.contains('&'),
    ensures
        plain_pairs(token_name() + seq!['='] + v) == seq![(token_name(), v)],
        first_value(plain_pairs(token_name() + seq!['='] + v), token_name()) == Some(v),
{
    let q = token_name() + seq!['='] + v;
    assert(!q.contains('&')) by {
        assert forall|i: int| 0 <= i < q.len() implies q[i] != '&' by {
            if i >= 6 {
                assert(q[i] == v[i - 6]);
            }
        }
    }
    lemma_pairs_one_piece(q, Seq::empty());
    assert(Seq::<char>::empty() + q =~= q);
    assert(!token_name().contains('='));
    lemma_name_value_split(token_name(), v);
}

/// The access token of a request: from the `Authorization` header if it has
/// a bearer token, else from the query string.
pub fn request_token(header: Option<&str>, query: Option<&str>) -> (r: Option<String>)
    ensures
        match bearer_token_spec(header) {
            Some(t) => r matches Some(s) && s@ == t,
            None => match query {
                None => r is None,
                Some(q) => match r {
                    Some(v) => first_value(url_pairs(q.spec_bytes()), token_name()) == Some(v@),
                    None => first_value(url_pairs(q.spec_bytes()), token_name()) is None,
                },
            },
        },
        bearer_token_spec(header) is None ==> match query {
            Some(q) => plain_text(q@) ==> match r {
                Some(v) => first_value(plain_pairs(q@), token_name()) == Some(v@),
                None => first_value(plain_pairs(q@), token_name()) is None,
            },
            None => true,
        },
{
    let from_header = bearer_token(header);
    let from_query = query_token(query);
    match from_header {
        Some(t) => Some(t),
        None => from_query,
    }
}

/// The bearer token of a header value, as `bearer_token` finds it.
pub open spec fn bearer_token_spec(header: Option<&str>) -> Option<Seq<char>> {
    match header {
        Some(h) => if bearer_prefix().is_prefix_of(h@) {
            Some(h@.skip(7))
        } else {
            None
        },
        None => None,
    }
}

/// What the middleware does with a request.
#[derive(Debug, PartialEq, Eq, Clone, Copy)]
pub enum AuthDecision {
    /// Hand it on with the decoded token.
    Authorized,
    /// Hand it on without a token, as a guest's.
    Guest,
    /// Answer with this status.
    Reject { status: u16 },
}

/// The authentication middleware: whether requests without a valid token
/// pass as guests.
#[derive(Debug, Clone, Copy)]
pub struct AuthAccessLayer {
    pass_unauthorized: bool,
}

impl AuthAccessLayer {
    /// Whether requests without a valid token pass, as guests.
    pub closed spec fn passes_guests(self) -> bool {
        self.pass_unauthorized
    }

    /// A layer that lets requests without a valid token pass as guests.
    pub fn allow_guests() -> (r: Self)
        ensures
            r.passes_guests(),
    {
        AuthAccessLayer { pass_unauthorized: true }
    }

    /// A layer that answers `401` to requests without a valid token.
    pub fn only_authorized() -> (r: Self)
        ensures
            !r.passes_guests(),
    {
        AuthAccessLayer { pass_unauthorized: false }
    }

    /// The service that guards `service` as this layer says.
    pub fn layer<S>(&self, service: S) -> (r: AuthAccessService<S>)
        ensures
            r.passes_guests() == self.passes_guests(),
            r.inner() == service,
    {
        AuthAccessService { service, pass_unauthorized: self.pass_unauthorized }
    }
}

impl Default for AuthAccessLayer {
    /// A layer that answers `401` to requests without a valid token.
    fn default() -> (r: Self)
        ensures
            !r.passes_guests(),
    {
        AuthAccessLayer::only_authorized()
    }
}

/// A service guarded by the authentication middleware.
#[derive(Debug)]
pub struct AuthAccessService<S> {
    service: S,
    pass_unauthorized: bool,
}

impl<S> AuthAccessService<S> {
    /// Whether requests without a valid token pass, as guests.
    pub closed spec fn passes_guests(self) -> bool {
        self.pass_unauthorized
    }

    /// The guarded service.
    pub closed spec fn inner(self) -> S {
        self.service
    }

    /// The guarded service.
    pub fn service(&self) -> (r: &S)
        ensures
            *r == self.inner(),
    {
        &self.service
    }

    /// What happens to a request whose token decoded (`token_valid`) or not:
    /// with one it passes with it; without, it passes as a guest's or is
    /// answered `401`, as the layer says.
    pub fn decide(&self, token_valid: bool) -> (r: AuthDecision)
        ensures
            token_valid ==> r == AuthDecision::Authorized,
            !token_valid && self.passes_guests() ==> r == AuthDecision::Guest,
            !token_valid && !self.passes_guests() ==> r == (AuthDecision::Reject { status: STATUS_UNAUTHORIZED }),
    {
        if token_valid {
            AuthDecision::Authorized
        } else if self.pass_unauthorized {
            AuthDecision::Guest
        } else {
            AuthDecision::Reject { status: STATUS_UNAUTHORIZED }
        }
    }
}

} // verus!
