use vstd::prelude::*;

use crate::error::AppError;
use crate::store::{Store, StoreModel};
use crate::text::{
    index_of_first, lemma_index_of_first_unique, matches_at, str_eq, trim, trim_spec,
};

verus! {

/// Marks a request authorized by either credential kind: a valid session
/// cookie or a stored bearer token.
#[derive(Debug)]
pub struct Auth;

/// Marks a request authorized by a valid session cookie alone; bearer tokens
/// do not qualify, so a leaked token cannot mint further tokens.
#[derive(Debug)]
pub struct SessionAuth;

/// The outcome of the never-failing probe: whether a valid session is present.
#[derive(Debug)]
pub struct MaybeAuth(pub bool);

/// Rejection of the resolver: an unauthorized request, or a storage failure
/// surfaced as an internal error.
#[derive(Debug)]
pub enum AuthError {
    Unauthorized,
    Internal(String),
}

impl AuthError {
    /// The HTTP status this rejection maps to at the boundary.
    pub open spec fn status_spec(&self) -> int {
        match self {
            AuthError::Unauthorized => 401,
            AuthError::Internal(_) => 500,
        }
    }

    /// The message placed in the `{error: message}` body.
    pub open spec fn message_spec(&self) -> Seq<char> {
        match self {
            AuthError::Unauthorized => "Unauthorized"@,
            AuthError::Internal(m) => m@,
        }
    }

    pub fn status_code(&self) -> (r: u16)
        ensures
            r as int == self.status_spec(),
    {
        match self {
            AuthError::Unauthorized => 401,
            AuthError::Internal(_) => 500,
        }
    }

    pub fn message(&self) -> (r: String)
        ensures
            r@ == self.message_spec(),
    {
        match self {
            AuthError::Unauthorized => String::from_str("Unauthorized"),
            AuthError::Internal(m) => m.clone(),
        }
    }
}

impl From<AppError> for AuthError {
    /// Storage failures stay internal errors; an unauthorized result stays
    /// unauthorized; the remaining variants cannot reach the resolver and are
    /// folded into internal errors as the boundary would report them.
    fn from(err: AppError) -> (r: Self) {
        match err {
            AppError::Database(msg) => AuthError::Internal(msg),
            AppError::Unauthorized => AuthError::Unauthorized,
            AppError::NotFound => AuthError::Internal(String::from_str("Not found")),
            AppError::BadRequest(msg) => AuthError::Internal(String::from_str(msg)),
        }
    }
}

impl vstd::std_specs::convert::FromSpecImpl<AppError> for AuthError {
    /// The conversion allocates fresh message strings for two variants, which
    /// a spec function cannot name value-for-value, so no equation is claimed;
    /// callers that need guarantees match on the variants themselves.
    open spec fn obeys_from_spec() -> bool {
        false
    }

    open spec fn from_spec(err: AppError) -> Self {
        AuthError::Unauthorized
    }
}

/// The name/value pair one cookie segment contributes: the segment is trimmed,
/// then split at its first `=`; a segment without `=` contributes nothing.
pub open spec fn pair_of(seg: Seq<char>) -> Option<(Seq<char>, Seq<char>)> {
    let t = trim_spec(seg);
    let i = index_of_first(t, '=');
    if i < 0 {
        None
    } else {
        Some((t.take(i), t.skip(i + 1)))
    }
}

/// The segments `str::split` yields for a separator character.
pub open spec fn split_spec(s: Seq<char>, sep: char) -> Seq<Seq<char>>
    decreases s.len(),
{
    if s.len() == 0 {
        seq![Seq::<char>::empty()]
    } else if s[0] == sep {
        seq![Seq::<char>::empty()] + split_spec(s.skip(1), sep)
    } else {
        let r = split_spec(s.skip(1), sep);
        seq![seq![s[0]] + r[0]] + r.skip(1)
    }
}

pub proof fn lemma_split_nonempty(s: Seq<char>, sep: char)
    ensures
        split_spec(s, sep).len() >= 1,
    decreases s.len(),
{
    if s.len() > 0 && s[0] != sep {
        lemma_split_nonempty(s.skip(1), sep);
    }
}

/// The pairs a sequence of segments contributes, in order.
pub open spec fn pairs_of(segs: Seq<Seq<char>>) -> Seq<(Seq<char>, Seq<char>)>
    decreases segs.len(),
{
    if segs.len() == 0 {
        Seq::empty()
    } else {
        match pair_of(segs[0]) {
            Some(p) => seq![p] + pairs_of(segs.skip(1)),
            None => pairs_of(segs.skip(1)),
        }
    }
}

/// Every cookie one `Cookie` header line carries, in order: the line is split
/// on `;`, each segment trimmed and split at its first `=`.
pub open spec fn cookie_pairs(header: Seq<char>) -> Seq<(Seq<char>, Seq<char>)> {
    pairs_of(split_spec(header, ';'))
}

/// `str::split`, verified against `split_spec`.
fn split_str(s: &str, sep: char) -> (r: Vec<String>)
    ensures
        r@.map_values(|x: String| x@) == split_spec(s@, sep),
{
    let mut segs: Vec<String> = Vec::new();
    let mut cur = String::new();
    let n = s.unicode_len();
    let mut i: usize = 0;
    proof {
        assert(s@.skip(0) =~= s@);
        lemma_split_nonempty(s@, sep);
        assert(split_spec(s@, sep) =~~= segs@.map_values(|x: String| x@) + seq![
            cur@ + split_spec(s@.skip(0), sep)[0],
        ] + split_spec(s@.skip(0), sep).skip(1));
    }
    while i < n
        invariant
            i <= n,
            n == s@.len(),
            split_spec(s@.skip(i as int), sep).len() >= 1,
            split_spec(s@, sep) =~~= segs@.map_values(|x: String| x@) + seq![
                cur@ + split_spec(s@.skip(i as int), sep)[0],
            ] + split_spec(s@.skip(i as int), sep).skip(1),
        decreases n - i,
    {
        let ghost rem = s@.skip(i as int);
        proof {
            assert(rem[0] == s@[i as int]);
            assert(rem.skip(1) =~= s@.skip(i + 1));
            lemma_split_nonempty(s@.skip(i + 1), sep);
        }
        let c = s.get_char(i);
        if c == sep {
            segs.push(cur);
            cur = String::new();
            proof {
                assert(segs@.map_values(|x: String| x@) =~= segs@.drop_last().map_values(
                    |x: String| x@,
                ).push(segs@.last()@));
            }
        } else {
            let piece = s.substring_char(i, i + 1);
            proof {
                assert(piece@ =~= seq![s@[i as int]]);
            }
            cur.append(piece);
        }
        i += 1;
    }
    proof {
        assert(s@.skip(n as int) =~= Seq::<char>::empty());
    }
    segs.push(cur);
    proof {
        assert(segs@.map_values(|x: String| x@) =~= segs@.drop_last().map_values(
            |x: String| x@,
        ).push(segs@.last()@));
        assert(segs@.map_values(|x: String| x@) =~~= split_spec(s@, sep));
    }
    segs
}

/// Trims one segment and splits it at its first `=`, as `pair_of` describes.
fn parse_cookie_pair(seg: &str) -> (r: Option<(String, String)>)
    ensures
        match r {
            Some(p) => pair_of(seg@) == Some((p.0@, p.1@)),
            None => pair_of(seg@) is None,
        },
{
    let t = trim(seg);
    let n = t.unicode_len();
    let mut i: usize = 0;
    while i < n
        invariant
            i <= n,
            n == t@.len(),
            t@ == trim_spec(seg@),
            forall|k: int| 0 <= k < i ==> t@[k] != '=',
        decreases n - i,
    {
        if t.get_char(i) == '=' {
            proof {
                lemma_index_of_first_unique(t@, '=', i as int);
            }
            let name = t.substring_char(0, i);
            let value = t.substring_char(i + 1, n);
            proof {
                assert(name@ =~= t@.take(i as int));
                assert(value@ =~= t@.skip(i + 1));
            }
            return Some((String::from_str(name), String::from_str(value)));
        }
        i += 1;
    }
    proof {
        lemma_index_of_first_unique(t@, '=', n as int);
    }
    None
}

/// Parses one `Cookie` header line into its name/value pairs, a pure function
/// of the header text, independent of any web framework.
pub fn parse_cookies(header: &str) -> (r: Vec<(String, String)>)
    ensures
        r@.map_values(|p: (String, String)| (p.0@, p.1@)) == cookie_pairs(header@),
{
    let segs = split_str(header, ';');
    let ghost segviews = segs@.map_values(|x: String| x@);
    let mut out: Vec<(String, String)> = Vec::new();
    let mut i: usize = 0;
    proof {
        assert(segviews.skip(0) =~= segviews);
        assert(pairs_of(segviews) =~~= out@.map_values(|p: (String, String)| (p.0@, p.1@))
            + pairs_of(segviews.skip(0)));
    }
    while i < segs.len()
        invariant
            i <= segs.len(),
            segviews == segs@.map_values(|x: String| x@),
            pairs_of(segviews) =~~= out@.map_values(|p: (String, String)| (p.0@, p.1@)) + pairs_of(
                segviews.skip(i as int),
            ),
        decreases segs.len() - i,
    {
        proof {
            assert(segviews.skip(i as int)[0] == segviews[i as int]);
            assert(segviews[i as int] == segs@[i as int]@);
            assert(segviews.skip(i as int).skip(1) =~= segviews.skip(i + 1));
        }
        match parse_cookie_pair(&segs[i]) {
            Some(p) => {
                out.push(p);
                proof {
                    assert(out@.map_values(|p: (String, String)| (p.0@, p.1@))
                        =~= out@.drop_last().map_values(|p: (String, String)| (p.0@, p.1@)).push(
                        (out@.last().0@, out@.last().1@),
                    ));
                }
            },
            None => {},
        }
        i += 1;
    }
    proof {
        assert(segviews.skip(segs@.len() as int) =~= Seq::<Seq<char>>::empty());
        assert(out@.map_values(|p: (String, String)| (p.0@, p.1@)) =~~= cookie_pairs(header@));
    }
    out
}

/// Whether any `session` cookie in any header line names a session that is
/// valid at `now`.
pub open spec fn session_granted(st: StoreModel, headers: Seq<Seq<char>>, now: int) -> bool {
    exists|h: int, p: int|
        0 <= h < headers.len() && 0 <= p < cookie_pairs(headers[h]).len() && (
        #[trigger] cookie_pairs(headers[h])[p]).0 == "session"@ && st.has_valid_session(
            cookie_pairs(headers[h])[p].1,
            now,
        )
}

/// The bearer token of an `Authorization` header value, accepted only in the
/// exact case-sensitive form `Bearer <token>`.
pub open spec fn bearer_token_of(h: Seq<char>) -> Option<Seq<char>> {
    if h.len() >= 7 && h.take(7) == "Bearer "@ {
        Some(h.skip(7))
    } else {
        None
    }
}

/// Whether the `Authorization` header presents a stored bearer token; absence
/// or a malformed header is no credential, not an error.
pub open spec fn bearer_granted(st: StoreModel, header: Option<Seq<char>>) -> bool {
    match header {
        Some(h) => match bearer_token_of(h) {
            Some(t) => st.has_token_value(t),
            None => false,
        },
        None => false,
    }
}

/// Tries every `session` cookie of every header line, in order, until one
/// names a valid session.
pub fn check_session(store: &Store, cookie_headers: &Vec<String>, now: i64) -> (r: bool)
    requires
        store@.wf(),
    ensures
        r == session_granted(store@, cookie_headers@.map_values(|h: String| h@), now as int),
{
    let ghost headers = cookie_headers@.map_values(|h: String| h@);
    let mut h: usize = 0;
    while h < cookie_headers.len()
        invariant
            h <= cookie_headers.len(),
            store@.wf(),
            headers == cookie_headers@.map_values(|x: String| x@),
            forall|hh: int, pp: int|
                0 <= hh < h && 0 <= pp < cookie_pairs(headers[hh]).len() ==> !((
                #[trigger] cookie_pairs(headers[hh])[pp]).0 == "session"@ && store@.has_valid_session(
                    cookie_pairs(headers[hh])[pp].1,
                    now as int,
                )),
        decreases cookie_headers.len() - h,
    {
        let pairs = parse_cookies(cookie_headers[h].as_str());
        let ghost pairviews = pairs@.map_values(|p: (String, String)| (p.0@, p.1@));
        proof {
            assert(pairviews == cookie_pairs(headers[h as int]));
        }
        let mut p: usize = 0;
        while p < pairs.len()
            invariant
                p <= pairs.len(),
                store@.wf(),
                h < cookie_headers.len(),
                headers == cookie_headers@.map_values(|x: String| x@),
                pairviews == pairs@.map_values(|q: (String, String)| (q.0@, q.1@)),
                pairviews == cookie_pairs(headers[h as int]),
                forall|pp: int|
                    0 <= pp < p ==> !((#[trigger] pairviews[pp]).0 == "session"@
                        && store@.has_valid_session(pairviews[pp].1, now as int)),
            decreases pairs.len() - p,
        {
            if str_eq(pairs[p].0.as_str(), "session") {
                match store.validate_session(pairs[p].1.as_str(), now) {
                    Some(_) => {
                        proof {
                            assert(pairviews[p as int].0 == "session"@);
                            assert(store@.has_valid_session(pairviews[p as int].1, now as int));
                            assert(cookie_pairs(headers[h as int])[p as int].0 == "session"@
                                && store@.has_valid_session(
                                cookie_pairs(headers[h as int])[p as int].1,
                                now as int,
                            ));
                        }
                        return true;
                    },
                    None => {},
                }
            }
            p += 1;
        }
        h += 1;
    }
    false
}

/// Reads the bearer credential, if one is presented, and checks it against the
/// token store; a store lookup failure would propagate, never pass as
/// unauthenticated.
pub fn check_bearer_token(store: &Store, auth_header: Option<&String>) -> (r: Result<
    bool,
    AppError,
>)
    requires
        store@.wf(),
    ensures
        r matches Ok(b) && b == bearer_granted(
            store@,
            match auth_header {
                Some(h) => Some(h@),
                None => None,
            },
        ),
{
    match auth_header {
        Some(h) => {
            let hs = h.as_str();
            let n = hs.unicode_len();
            proof {
                reveal_strlit("Bearer ");
            }
            if n >= 7 && matches_at(hs, 0, "Bearer ") {
                proof {
                    assert(hs@.take(7) =~= hs@.subrange(0, 7));
                }
                let tok = hs.substring_char(7, n);
                proof {
                    assert(tok@ =~= hs@.skip(7));
                }
                match store.get_api_token_by_value(tok) {
                    Ok(o) => Ok(o.is_some()),
                    Err(e) => Err(e),
                }
            } else {
                proof {
                    if n >= 7 {
                        assert(hs@.take(7) =~= hs@.subrange(0, 7));
                    }
                }
                Ok(false)
            }
        },
        None => Ok(false),
    }
}

impl Auth {
    /// The full-capability decision: a valid session cookie or a stored bearer
    /// token grants, session first, the first success winning. The rejection
    /// does not reveal whether a credential was presented or merely invalid.
    pub fn authorize(
        store: &Store,
        cookie_headers: &Vec<String>,
        auth_header: Option<&String>,
        now: i64,
    ) -> (r: Result<Auth, AuthError>)
        requires
            store@.wf(),
        ensures
            r is Ok <==> (session_granted(
                store@,
                cookie_headers@.map_values(|h: String| h@),
                now as int,
            ) || bearer_granted(
                store@,
                match auth_header {
                    Some(h) => Some(h@),
                    None => None,
                },
            )),
            r is Err ==> (r matches Err(e) && e is Unauthorized),
    {
        if check_session(store, cookie_headers, now) {
            return Ok(Auth);
        }
        match check_bearer_token(store, auth_header) {
            Ok(true) => Ok(Auth),
            Ok(false) => Err(AuthError::Unauthorized),
            Err(e) => Err(AuthError::from(e)),
        }
    }
}

impl SessionAuth {
    /// The session-only decision: only a valid session cookie grants.
    pub fn authorize(store: &Store, cookie_headers: &Vec<String>, now: i64) -> (r: Result<
        SessionAuth,
        AuthError,
    >)
        requires
            store@.wf(),
        ensures
            r is Ok <==> session_granted(
                store@,
                cookie_headers@.map_values(|h: String| h@),
                now as int,
            ),
            r is Err ==> (r matches Err(e) && e is Unauthorized),
    {
        if check_session(store, cookie_headers, now) {
            Ok(SessionAuth)
        } else {
            Err(AuthError::Unauthorized)
        }
    }
}

impl MaybeAuth {
    /// The never-failing probe used by page routes to decide redirects.
    pub fn probe(store: &Store, cookie_headers: &Vec<String>, now: i64) -> (r: MaybeAuth)
        requires
            store@.wf(),
        ensures
            r.0 == session_granted(
                store@,
                cookie_headers@.map_values(|h: String| h@),
                now as int,
            ),
    {
        MaybeAuth(check_session(store, cookie_headers, now))
    }
}

} // verus!
