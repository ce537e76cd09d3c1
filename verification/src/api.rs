//! Decisions of the HTTP service: who may ask, what a request says, and what is
//! answered.

use vstd::prelude::*;
use vstd::string::*;
use subtle::ConstantTimeEq;
use crate::route::RouteResult;
use crate::text::{
    chars_of, find_char, is_blank, position_of, string_of, trim_range, trim_string, trimmed,
};

verus! {

/// A request for a route: both points as "lat,lon".
pub struct RouteQuery {
    pub from: String,
    pub to: String,
}

/// A route as it is answered.
pub struct RouteResponse<Q> {
    /// Length in tenths of a nautical mile.
    pub distance_tenths: u128,
    pub raw_hops: usize,
    pub smooth_hops: usize,
    pub coordinates: Vec<Q>,
}

/// An error as it is answered.
pub struct ErrorResponse {
    pub error: String,
}

/// What is answered about the loaded graph.
pub struct InfoResponse {
    pub nodes: u32,
    pub edges: u32,
    pub graph_path: String,
    pub version: String,
}

/// Why a request is turned down.
#[derive(Debug, Clone, Copy, PartialEq, Eq)]
pub enum ApiError {
    /// The graph is not loaded yet.
    Loading,
    /// The starting point cannot be read.
    BadFrom,
    /// The destination cannot be read.
    BadTo,
    /// No search can be started.
    AtCapacity,
    /// The search broke down.
    Failed,
    /// There is no route.
    NoRoute,
    /// The key is missing or wrong.
    Unauthorized,
}

impl ApiError {
    /// HTTP status of the answer.
    pub open spec fn code(self) -> u16 {
        match self {
            ApiError::Loading => 503,
            ApiError::BadFrom => 400,
            ApiError::BadTo => 400,
            ApiError::AtCapacity => 503,
            ApiError::Failed => 500,
            ApiError::NoRoute => 404,
            ApiError::Unauthorized => 401,
        }
    }

    /// Text of the answer.
    pub open spec fn text(self) -> Seq<char> {
        match self {
            ApiError::Loading => "Server is loading graph..."@,
            ApiError::BadFrom => "Invalid 'from' parameter. Expected: lat,lon"@,
            ApiError::BadTo => "Invalid 'to' parameter. Expected: lat,lon"@,
            ApiError::AtCapacity => "Server is at capacity, please retry"@,
            ApiError::Failed => "Route computation failed unexpectedly"@,
            ApiError::NoRoute => "No route found between the given points"@,
            ApiError::Unauthorized => "unauthorized"@,
        }
    }

    /// Computes [`ApiError::code`].
    pub fn status(self) -> (r: u16)
        ensures
            r == self.code(),
    {
        match self {
            ApiError::Loading => 503,
            ApiError::BadFrom => 400,
            ApiError::BadTo => 400,
            ApiError::AtCapacity => 503,
            ApiError::Failed => 500,
            ApiError::NoRoute => 404,
            ApiError::Unauthorized => 401,
        }
    }

    /// The body of the answer.
    pub fn response(self) -> (r: ErrorResponse)
        ensures
            r.error@ == self.text(),
    {
        let error = match self {
            ApiError::Loading => "Server is loading graph...",
            ApiError::BadFrom => "Invalid 'from' parameter. Expected: lat,lon",
            ApiError::BadTo => "Invalid 'to' parameter. Expected: lat,lon",
            ApiError::AtCapacity => "Server is at capacity, please retry",
            ApiError::Failed => "Route computation failed unexpectedly",
            ApiError::NoRoute => "No route found between the given points",
            ApiError::Unauthorized => "unauthorized",
        };
        ErrorResponse { error: String::from_str(error) }
    }
}

/// The two numbers of "lat,lon": what stands before and behind the only comma,
/// without white space around it.
pub open spec fn latlng_parts(s: Seq<char>) -> Option<(Seq<char>, Seq<char>)> {
    let i = position_of(s, ',', 0);
    if i >= s.len() || position_of(s, ',', i + 1) < s.len() {
        None
    } else {
        Some((trimmed(s.subrange(0, i)), trimmed(s.subrange(i + 1, s.len() as int))))
    }
}

/// A text with one comma gives what stands before and behind it. One without a comma, or
/// with two, gives nothing.
pub proof fn lemma_latlng(a: Seq<char>, b: Seq<char>, more: Seq<char>)
    requires
        !a.contains(','),
        !b.contains(','),
    ensures
        latlng_parts(a + seq![','] + b) == Some((trimmed(a), trimmed(b))),
        latlng_parts(a) is None,
        latlng_parts(a + seq![','] + b + seq![','] + more) is None,
{
    let one = a + seq![','] + b;
    let two = one + seq![','] + more;
    let n = a.len() as int;
    let m = one.len() as int;
    assert forall|i: int| 0 <= i < n implies #[trigger] a[i] != ',' by {
        assert(a.contains(a[i]));
    }
    assert forall|i: int| n < i < m implies #[trigger] one[i] != ',' by {
        assert(one[i] == b[i - n - 1]);
        assert(b.contains(b[i - n - 1]));
    }
    lemma_position(one, ',', 0, n);
    lemma_position(one, ',', n + 1, m);
    lemma_position(a, ',', 0, n);
    lemma_position(two, ',', 0, n);
    lemma_position(two, ',', n + 1, m);
    assert(one.subrange(0, n) =~= a);
    assert(one.subrange(n + 1, m) =~= b);
}

/// The first place of a character, told by what stands before it.
proof fn lemma_position(s: Seq<char>, c: char, from: int, to: int)
    requires
        0 <= from <= to <= s.len(),
        forall|i: int| from <= i < to ==> #[trigger] s[i] != c,
        to < s.len() ==> s[to] == c,
    ensures
        position_of(s, c, from) == to,
    decreases to - from,
{
    if from < to {
        assert(s[from] != c);
        lemma_position(s, c, from + 1, to);
    }
}

/// Splits "lat,lon" into the texts of its two numbers.
pub fn parse_latlng(s: &str) -> (r: Option<(String, String)>)
    ensures
        match r {
            Some((lat, lon)) => latlng_parts(s@) == Some((lat@, lon@)),
            None => latlng_parts(s@) is None,
        },
{
    let chars = chars_of(s);
    let n: usize = chars.len();
    let i: usize = find_char(&chars, ',', 0);
    if i >= n {
        return None;
    }
    if find_char(&chars, ',', i + 1) < n {
        return None;
    }
    let (a, b): (usize, usize) = trim_range(&chars, 0, i);
    let (c, d): (usize, usize) = trim_range(&chars, i + 1, n);
    Some((string_of(&chars, a, b), string_of(&chars, c, d)))
}

/// Whether a request for a route goes ahead: the first obstacle counts.
pub open spec fn admission<N>(ready: bool, from: Option<N>, to: Option<N>, permit: bool) -> Result<
    (N, N),
    ApiError,
> {
    if !ready {
        Err(ApiError::Loading)
    } else if from is None {
        Err(ApiError::BadFrom)
    } else if to is None {
        Err(ApiError::BadTo)
    } else if !permit {
        Err(ApiError::AtCapacity)
    } else {
        Ok((from->0, to->0))
    }
}

/// A request goes ahead exactly if the graph is loaded, both points were read and a search
/// may be started. Otherwise what is told is the first that is amiss, in this order.
pub proof fn lemma_admission<N>(ready: bool, from: Option<N>, to: Option<N>, permit: bool)
    ensures
        admission(ready, from, to, permit) is Ok <==> ready && from is Some && to is Some && permit,
        admission(ready, from, to, permit) matches Ok(p) ==> Some(p.0) == from && Some(p.1) == to,
        admission(ready, from, to, permit) matches Err(e) ==> {
            &&& e.code() == 503 <==> !ready || (from is Some && to is Some)
            &&& e.code() == 400 <==> ready && (from is None || to is None)
            &&& e == ApiError::BadFrom <==> ready && from is None
        },
{
}

/// Computes [`admission`]. `from` and `to` are the points that were read, `ready`
/// says whether the graph is loaded and `permit` whether a search may be started.
pub fn admit_route<N>(
    ready: bool,
    from: Option<N>,
    to: Option<N>,
    permit: bool,
) -> (r: Result<(N, N), ApiError>)
    ensures
        r == admission(ready, from, to, permit),
{
    if !ready {
        return Err(ApiError::Loading);
    }
    match from {
        None => Err(ApiError::BadFrom),
        Some(a) => match to {
            None => Err(ApiError::BadTo),
            Some(b) => if permit {
                Ok((a, b))
            } else {
                Err(ApiError::AtCapacity)
            },
        },
    }
}

/// Micro-nm in a tenth of a nautical mile.
pub const TENTH_NM: u128 = 100_000;

/// The answer to a request for a route. `outcome` is what the search gave, or
/// `None` where it broke down.
pub fn route_reply<Q>(outcome: Option<Option<RouteResult<Q>>>) -> (r: Result<
    RouteResponse<Q>,
    ApiError,
>)
    requires
        outcome matches Some(Some(route)) ==> route.distance <= u128::MAX - TENTH_NM,
    ensures
        match outcome {
            None => r == Err::<RouteResponse<Q>, ApiError>(ApiError::Failed),
            Some(None) => r == Err::<RouteResponse<Q>, ApiError>(ApiError::NoRoute),
            Some(Some(route)) => r matches Ok(a) && {
                &&& a.distance_tenths == (route.distance + TENTH_NM / 2) / TENTH_NM as int
                &&& a.raw_hops == route.raw_hops
                &&& a.smooth_hops == route.smooth_hops
                &&& a.coordinates == route.coordinates
            },
        },
{
    match outcome {
        None => Err(ApiError::Failed),
        Some(None) => Err(ApiError::NoRoute),
        Some(Some(route)) => Ok(
            RouteResponse {
                distance_tenths: (route.distance + TENTH_NM / 2) / TENTH_NM,
                raw_hops: route.raw_hops,
                smooth_hops: route.smooth_hops,
                coordinates: route.coordinates,
            },
        ),
    }
}

/// What counts as found: on a graph without nodes nothing is, not even the
/// straight line between two points.
pub fn outcome_of<Q>(nodes: u32, found: Option<RouteResult<Q>>) -> (r: Option<RouteResult<Q>>)
    ensures
        r == if nodes == 0 {
            None
        } else {
            found
        },
{
    if nodes == 0 {
        None
    } else {
        found
    }
}

/// What can be asked for.
#[derive(Debug, Clone, Copy, PartialEq, Eq, Structural)]
pub enum Endpoint {
    Health,
    Ready,
    Route,
    Info,
}

impl Endpoint {
    /// Only those who show the key are answered.
    pub open spec fn is_protected(self) -> bool {
        self == Endpoint::Route || self == Endpoint::Info
    }

    pub open spec fn location(self) -> Seq<char> {
        match self {
            Endpoint::Health => "/health"@,
            Endpoint::Ready => "/ready"@,
            Endpoint::Route => "/route"@,
            Endpoint::Info => "/info"@,
        }
    }

    /// Where it is asked for.
    pub fn path(self) -> (r: &'static str)
        ensures
            r@ == self.location(),
    {
        match self {
            Endpoint::Health => "/health",
            Endpoint::Ready => "/ready",
            Endpoint::Route => "/route",
            Endpoint::Info => "/info",
        }
    }
}

/// `ConstantTimeEq` of the `subtle` crate on slices of bytes: they are equal when
/// they have the same length and the same bytes.
#[verifier::external_body]
fn constant_time_eq(a: &[u8], b: &[u8]) -> (r: bool)
    ensures
        r == (a@ == b@),
{
    a.ct_eq(b).into()
}

/// What the server is made of: the graph, once it is loaded, where it comes
/// from, and the key that requests have to show.
pub struct ServerState<T> {
    pub inner: Option<T>,
    pub graph_path: String,
    pub api_key: String,
}

impl<T> ServerState<T> {
    /// A server that is still loading its graph. The key has to be more than
    /// white space.
    pub fn new(graph_path: String, api_key: String) -> (r: Self)
        requires
            !is_blank(api_key@),
        ensures
            r.inner is None,
            r.graph_path == graph_path,
            r.api_key == api_key,
    {
        ServerState { inner: None, graph_path, api_key }
    }

    /// Takes the loaded graph into service.
    pub fn set_ready(&mut self, app: T)
        ensures
            final(self).inner == Some(app),
            final(self).graph_path == old(self).graph_path,
            final(self).api_key == old(self).api_key,
    {
        self.inner = Some(app);
    }

    /// The key that requests have to show.
    pub fn api_key(&self) -> (r: &str)
        ensures
            r@ == self.api_key@,
    {
        self.api_key.as_str()
    }

    /// The key is the right one.
    pub open spec fn accepts(&self, provided: Option<&str>) -> bool {
        provided matches Some(key) && key@ == self.api_key@
    }

    /// Lets a request through only with the right key.
    pub fn authorize(&self, provided: Option<&str>) -> (r: Result<(), ApiError>)
        ensures
            r == if self.accepts(provided) {
                Ok::<(), ApiError>(())
            } else {
                Err(ApiError::Unauthorized)
            },
    {
        match provided {
            Some(key) => {
                let own = self.api_key.as_str();
                proof {
                    vstd::utf8::encode_utf8_decode_utf8(key@);
                    vstd::utf8::encode_utf8_decode_utf8(own@);
                }
                if constant_time_eq(key.as_bytes(), own.as_bytes()) {
                    Ok(())
                } else {
                    Err(ApiError::Unauthorized)
                }
            },
            None => Err(ApiError::Unauthorized),
        }
    }

    /// What a request is answered before anything else of it is looked at:
    /// nothing, unless the key is asked for and not right.
    pub open spec fn key_verdict(&self, e: Endpoint, provided: Option<&str>) -> Result<
        (),
        ApiError,
    > {
        if e.is_protected() && !self.accepts(provided) {
            Err(ApiError::Unauthorized)
        } else {
            Ok(())
        }
    }

    /// Computes [`ServerState::key_verdict`].
    pub fn ask_key(&self, e: Endpoint, provided: Option<&str>) -> (r: Result<(), ApiError>)
        ensures
            r == self.key_verdict(e, provided),
    {
        match e {
            Endpoint::Health | Endpoint::Ready => Ok(()),
            Endpoint::Route | Endpoint::Info => self.authorize(provided),
        }
    }

    /// HTTP status for whether the graph is loaded.
    pub open spec fn ready_code(&self) -> u16 {
        if self.inner is Some {
            200
        } else {
            503
        }
    }

    /// Answer to the question whether the graph is loaded.
    pub fn ready_reply(&self) -> (r: Result<&'static str, u16>)
        ensures
            match r {
                Ok(text) => self.ready_code() == 200 && text@ == "ready"@,
                Err(code) => self.ready_code() == 503 && code == 503,
            },
    {
        match &self.inner {
            Some(_) => Ok("ready"),
            None => Err(503),
        }
    }

    /// Answer to the question about the graph. `size` gives the numbers of nodes
    /// and edges of the one that is loaded.
    pub fn info_reply<F: Fn(&T) -> (u32, u32)>(&self, size: &F, version: &str) -> (r: Result<
        InfoResponse,
        u16,
    >)
        requires
            forall|app: &T| #[trigger] call_requires(*size, (app,)),
        ensures
            match r {
                Ok(info) => {
                    &&& self.ready_code() == 200
                    &&& self.inner matches Some(app) && call_ensures(
                        *size,
                        (&app,),
                        (info.nodes, info.edges),
                    )
                    &&& info.graph_path@ == self.graph_path@
                    &&& info.version@ == version@
                },
                Err(code) => self.ready_code() == 503 && code == 503,
            },
    {
        match &self.inner {
            Some(app) => {
                let (nodes, edges): (u32, u32) = size(app);
                Ok(
                    InfoResponse {
                        nodes,
                        edges,
                        graph_path: self.graph_path.clone(),
                        version: String::from_str(version),
                    },
                )
            },
            None => Err(503),
        }
    }

    /// Whether a request for a route goes ahead; see [`admit_route`].
    pub fn admit_request<N>(&self, from: Option<N>, to: Option<N>, permit: bool) -> (r: Result<
        (N, N),
        ApiError,
    >)
        ensures
            r == admission(self.ready_code() == 200, from, to, permit),
    {
        admit_route(self.inner.is_some(), from, to, permit)
    }

    /// HTTP status of the answer. `route` is that of a request for a route which
    /// the server is ready to look at.
    pub open spec fn status_answered(&self, e: Endpoint, provided: Option<&str>, route: u16) -> u16 {
        match self.key_verdict(e, provided) {
            Err(x) => x.code(),
            Ok(_) => match e {
                Endpoint::Health => 200,
                Endpoint::Ready => self.ready_code(),
                Endpoint::Info => self.ready_code(),
                Endpoint::Route => if self.ready_code() == 200 {
                    route
                } else {
                    ApiError::Loading.code()
                },
            },
        }
    }

    /// Whether the server runs, and whether its graph is loaded, everyone is
    /// told. Routes and figures are for those with the right key, whether the
    /// graph is loaded or not; they in turn are told to wait until it is.
    pub proof fn lemma_endpoints(&self, provided: Option<&str>, route: u16)
        ensures
            self.status_answered(Endpoint::Health, provided, route) == 200,
            self.status_answered(Endpoint::Ready, provided, route) == if self.inner is Some {
                200
            } else {
                503u16
            },
            forall|e: Endpoint|
                #![trigger self.status_answered(e, provided, route)]
                e.is_protected() ==> {
                    &&& !self.accepts(provided) ==> self.status_answered(e, provided, route) == 401
                    &&& self.accepts(provided) && self.inner is None ==> self.status_answered(
                        e,
                        provided,
                        route,
                    ) == 503
                },
            forall|e: Endpoint|
                #![trigger self.status_answered(e, provided, route)]
                (e == Endpoint::Route || e == Endpoint::Info) && route != 401 ==> (
                self.status_answered(e, provided, route) != 401 <==> (provided matches Some(key)
                    && key@ == self.api_key@)),
            self.accepts(provided) && self.inner is Some ==> {
                &&& self.status_answered(Endpoint::Info, provided, route) == 200
                &&& self.status_answered(Endpoint::Route, provided, route) == route
            },
    {
    }
}

/// Answer to the question whether the server runs.
pub fn health_reply() -> (r: &'static str)
    ensures
        r@ == "ok"@,
{
    "ok"
}

/// Whether a key can be used.
pub fn usable_key(api_key: &str) -> (r: bool)
    ensures
        r == !is_blank(api_key@),
{
    !trim_string(api_key).as_str().is_empty()
}

} // verus!
