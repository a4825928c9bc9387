//! Addresses of objects in the distributed store, their URI form, and the
//! placement of an object's primary copy and replicas on the workers of a
//! topology by highest hash score.
use vstd::prelude::*;
use vstd::string::*;

use std::hash::{Hash, Hasher};

use crate::cluster_model::WorkerId;
use crate::text::{str_eq, strip_prefix, to_owned_string};
use crate::topology::{clone_strings, TopologyEntries, TopologyView};

verus! {

/// Errors of addressing operations.
#[derive(Debug, Clone)]
pub enum AddressError {
    /// A malformed URI, an unsupported path, or a missing host.
    InvalidUri(String),
    /// The object id is empty.
    EmptyObject,
    /// The topology view is too small or too old to allocate on.
    InsufficientTopology,
    /// No worker can take the object.
    NoAvailableNodes,
    /// A node has no worker.
    NoWorkersOnNode { node: String },
    /// The URI scheme is not one of `probing`, `http`, `https`.
    UnsupportedScheme { scheme: String },
    /// Any other internal problem.
    InternalError(String),
}

/// The value of an [`AddressError`], with its texts as character sequences.
pub enum AddressErrorView {
    InvalidUri(Seq<char>),
    EmptyObject,
    InsufficientTopology,
    NoAvailableNodes,
    NoWorkersOnNode { node: Seq<char> },
    UnsupportedScheme { scheme: Seq<char> },
    InternalError(Seq<char>),
}

impl View for AddressError {
    type V = AddressErrorView;

    open spec fn view(&self) -> AddressErrorView {
        match self {
            AddressError::InvalidUri(m) => AddressErrorView::InvalidUri(m@),
            AddressError::EmptyObject => AddressErrorView::EmptyObject,
            AddressError::InsufficientTopology => AddressErrorView::InsufficientTopology,
            AddressError::NoAvailableNodes => AddressErrorView::NoAvailableNodes,
            AddressError::NoWorkersOnNode { node } => AddressErrorView::NoWorkersOnNode {
                node: node@,
            },
            AddressError::UnsupportedScheme { scheme } => AddressErrorView::UnsupportedScheme {
                scheme: scheme@,
            },
            AddressError::InternalError(m) => AddressErrorView::InternalError(m@),
        }
    }
}

impl PartialEq for AddressError {
    fn eq(&self, other: &Self) -> (r: bool) {
        match (self, other) {
            (AddressError::InvalidUri(a), AddressError::InvalidUri(b)) => str_eq(a.as_str(), b.as_str()),
            (AddressError::EmptyObject, AddressError::EmptyObject) => true,
            (AddressError::InsufficientTopology, AddressError::InsufficientTopology) => true,
            (AddressError::NoAvailableNodes, AddressError::NoAvailableNodes) => true,
            (
                AddressError::NoWorkersOnNode { node: a },
                AddressError::NoWorkersOnNode { node: b },
            ) => str_eq(a.as_str(), b.as_str()),
            (
                AddressError::UnsupportedScheme { scheme: a },
                AddressError::UnsupportedScheme { scheme: b },
            ) => str_eq(a.as_str(), b.as_str()),
            (AddressError::InternalError(a), AddressError::InternalError(b)) => str_eq(a.as_str(), b.as_str()),
            _ => false,
        }
    }
}

impl vstd::std_specs::cmp::PartialEqSpecImpl for AddressError {
    open spec fn obeys_eq_spec() -> bool {
        true
    }

    open spec fn eq_spec(&self, other: &AddressError) -> bool {
        self@ == other@
    }
}

/// The address of an object: the worker responsible for it, if assigned, and
/// the object's id.
#[derive(Debug, Clone, Hash)]
pub struct Address {
    /// The worker that holds the object; `None` while unassigned.
    pub worker: Option<WorkerId>,
    /// The object's id, such as a file name or a task id.
    pub object: String,
}

/// The value of an [`Address`].
pub struct AddressView {
    pub worker: Option<Seq<char>>,
    pub object: Seq<char>,
}

impl View for Address {
    type V = AddressView;

    open spec fn view(&self) -> AddressView {
        AddressView {
            worker: match self.worker {
                Some(w) => Some(w@),
                None => None,
            },
            object: self.object@,
        }
    }
}

impl PartialEq for Address {
    fn eq(&self, other: &Self) -> (r: bool) {
        let same_worker = match (&self.worker, &other.worker) {
            (Some(a), Some(b)) => str_eq(a.as_str(), b.as_str()),
            (None, None) => true,
            _ => false,
        };
        same_worker && str_eq(self.object.as_str(), other.object.as_str())
    }
}

impl vstd::std_specs::cmp::PartialEqSpecImpl for Address {
    open spec fn obeys_eq_spec() -> bool {
        true
    }

    open spec fn eq_spec(&self, other: &Address) -> bool {
        self@ == other@
    }
}

impl Eq for Address {
}

/// The pieces of a parsed URL that addressing reads: scheme, host if any, and
/// path; or the parser's message when the text is not an absolute URL.
pub type UrlParts = Result<(Seq<char>, Option<Seq<char>>, Seq<char>), Seq<char>>;

/// What `url::Url::parse` makes of a text, as [`UrlParts`].
pub uninterp spec fn url_parts(input: Seq<char>) -> UrlParts;

/// A host made of ASCII letters, digits, `_` and `-`, which a URL of a
/// scheme without special rules keeps as written.
pub open spec fn plain_host(h: Seq<char>) -> bool {
    h.len() > 0 && forall|i: int| 0 <= i < h.len() ==> plain_char(#[trigger] h[i])
}

/// An ASCII letter or digit, `_` or `-`.
pub open spec fn plain_char(c: char) -> bool {
    ('a' <= c && c <= 'z') || ('A' <= c && c <= 'Z') || ('0' <= c && c <= '9') || c == '_' || c == '-'
}

/// A character that a URL path keeps as written: a plain character, `/`,
/// `.` or `~`.
pub open spec fn path_char(c: char) -> bool {
    plain_char(c) || c == '/' || c == '.' || c == '~'
}

/// Position `i` of `p` starts a segment, the text being preceded by `/`.
pub open spec fn segment_start(p: Seq<char>, i: int) -> bool {
    i == 0 || p[i - 1] == '/'
}

/// Position `i` of `p` ends a segment.
pub open spec fn segment_end(p: Seq<char>, i: int) -> bool {
    i == p.len() || p[i] == '/'
}

/// A path tail, following a `/`, made of characters that a URL keeps as
/// written, with no segment `.` or `..`, which a URL would resolve away.
pub open spec fn plain_path(p: Seq<char>) -> bool {
    &&& forall|i: int| 0 <= i < p.len() ==> path_char(#[trigger] p[i])
    &&& forall|i: int|
        0 <= i < p.len() && #[trigger] segment_start(p, i) && p[i] == '.' ==> !segment_end(p, i + 1) && !(
        p[i + 1] == '.' && segment_end(p, i + 2))
}

/// A host and the tail of a path after `/objects/`.
pub type UriPieces = (Seq<char>, Seq<char>);

/// The position of the first `/` in `s`.
pub open spec fn first_slash(s: Seq<char>) -> Option<int> {
    if exists|k: int| 0 <= k < s.len() && s[k] == '/' {
        Some(choose|k: int| 0 <= k < s.len() && s[k] == '/' && forall|j: int| 0 <= j < k ==> s[j] != '/')
    } else {
        None
    }
}

/// A host that a URL of a scheme with special rules (`http`, `https`) keeps
/// as written: a single label of ASCII lowercase letters, digits and `-`,
/// starting with a letter, not ending with `-`, with no `--` at its third
/// character (so no punycode), hence no number and no IP address.
pub open spec fn dns_host(h: Seq<char>) -> bool {
    &&& h.len() > 0
    &&& 'a' <= h[0] <= 'z'
    &&& forall|i: int| 0 <= i < h.len() ==> ('a' <= #[trigger] h[i] <= 'z') || ('0' <= h[i] <= '9') || h[i] == '-'
    &&& h.last() != '-'
    &&& !(h.len() >= 4 && h[2] == '-' && h[3] == '-')
}

/// A host that a URL of `scheme` keeps as written.
pub open spec fn host_fits(scheme: Seq<char>, h: Seq<char>) -> bool {
    if scheme == "probing"@ {
        plain_host(h)
    } else {
        dns_host(h)
    }
}

/// The host and path tail of a text `scheme://host/objects/tail` in which the
/// host is kept as written (see `host_fits`) and the tail is plain; nothing
/// for any other text.
pub open spec fn scheme_pieces(scheme: Seq<char>, s: Seq<char>) -> Option<UriPieces> {
    let head = scheme + "://"@;
    if head.is_prefix_of(s) {
        let rest = s.skip(head.len() as int);
        match first_slash(rest) {
            Some(k) => {
                let host = rest.take(k);
                let path = rest.skip(k);
                if "/objects/"@.is_prefix_of(path) && host_fits(scheme, host) && plain_path(
                    path.skip("/objects/"@.len() as int),
                ) {
                    Some((host, path.skip("/objects/"@.len() as int)))
                } else {
                    None
                }
            },
            None => None,
        }
    } else {
        None
    }
}

/// Parses `input` with `url::Url::parse` and hands back its scheme
/// (`Url::scheme`), host (`Url::host_str`) and path (`Url::path`), or the
/// parse error's message. The contract claims that the result is the named
/// function `url_parts` of the input text, and one fact of the parser: a
/// `scheme://host/objects/tail` URL with `scheme` one of `probing`, `http`,
/// `https` (see `scheme_pieces`) parses into exactly those pieces, where the
/// tail holds only characters a path keeps, with no `.` or `..` segment (see
/// `plain_path`), and the host is one the parser keeps as written: for
/// `probing`, a scheme without special rules, any host of plain characters
/// (see `plain_host`); for `http` and `https`, whose hosts go through the
/// domain-to-ASCII step, one that passes that step unchanged and is no IPv4
/// number (see `dns_host`). This is claimed for texts of at most `u32::MAX`
/// characters (all ASCII here, so as many bytes), as the parser refuses
/// longer ones with an overflow error. Nothing else is stated about how the
/// parser normalises a URL.
#[verifier::external_body]
fn parse_url(input: &str) -> (r: Result<(String, Option<String>, String), String>)
    ensures
        forall|scheme: Seq<char>|
            supported_scheme(scheme) && #[trigger] scheme_pieces(scheme, input@) is Some && input@.len() <= u32::MAX
                ==> r is Ok && r->Ok_0.0@ == scheme && r->Ok_0.1 is Some && r->Ok_0.1->Some_0@ == scheme_pieces(
                scheme,
                input@,
            )->Some_0.0 && r->Ok_0.2@ == "/objects/"@ + scheme_pieces(scheme, input@)->Some_0.1,
        match r {
            Ok((s, h, p)) => url_parts(input@) == UrlParts::Ok(
                (
                    s@,
                    match h {
                        Some(x) => Some(x@),
                        None => None,
                    },
                    p@,
                ),
            ),
            Err(m) => url_parts(input@) == UrlParts::Err(m@),
        },
{
    match url::Url::parse(input) {
        Ok(u) => Ok((u.scheme().to_string(), u.host_str().map(|h| h.to_string()), u.path().to_string())),
        Err(e) => Err(e.to_string()),
    }
}

/// The schemes that addresses accept.
pub open spec fn supported_scheme(s: Seq<char>) -> bool {
    s == "probing"@ || s == "http"@ || s == "https"@
}

/// The message for a host that is empty or absent.
pub open spec fn missing_worker_message() -> Seq<char> {
    "Missing worker ID in URI (host part is empty or not present)"@
}

/// The message for a path outside `/objects/`.
pub open spec fn bad_path_message(path: Seq<char>) -> Seq<char> {
    "Unsupported URI path pattern '"@ + path
        + "'. Expected path like /objects/{object_id...} (worker ID should be in the host part of the URI)"@
}

/// The message for text that is not a URL.
pub open spec fn parse_failure_message(uri: Seq<char>, err: Seq<char>) -> Seq<char> {
    "Failed to parse URI '"@ + uri + "': "@ + err
}

/// What an address URI means, given the text and what the URL parser made of it.
pub open spec fn address_from_parts(uri: Seq<char>, parts: UrlParts) -> Result<
    AddressView,
    AddressErrorView,
> {
    match parts {
        UrlParts::Err(e) => Err(AddressErrorView::InvalidUri(parse_failure_message(uri, e))),
        UrlParts::Ok((scheme, host, path)) => {
            if !supported_scheme(scheme) {
                Err(AddressErrorView::UnsupportedScheme { scheme })
            } else if host is None || host->0.len() == 0 {
                Err(AddressErrorView::InvalidUri(missing_worker_message()))
            } else if !"/objects/"@.is_prefix_of(path) {
                Err(AddressErrorView::InvalidUri(bad_path_message(path)))
            } else if path.len() == "/objects/"@.len() {
                Err(AddressErrorView::EmptyObject)
            } else {
                Ok(AddressView { worker: host, object: path.skip("/objects/"@.len() as int) })
            }
        },
    }
}

/// `scheme://{worker}/objects/{object}`, with `UNKNOWN_WORKER` for an
/// unassigned worker.
pub open spec fn uri_of(a: AddressView, scheme: Seq<char>) -> Seq<char> {
    scheme + "://"@ + match a.worker {
        Some(w) => w,
        None => "UNKNOWN_WORKER"@,
    } + "/objects/"@ + a.object
}

/// The view of an address result.
pub open spec fn result_view(r: Result<Address, AddressError>) -> Result<AddressView, AddressErrorView> {
    match r {
        Ok(a) => Ok(a@),
        Err(e) => Err(e@),
    }
}

impl Address {
    /// An address of `object` on `worker`.
    pub fn new(worker: &str, object: String) -> (r: Address)
        ensures
            r@ == (AddressView { worker: Some(worker@), object: object@ }),
    {
        Address { worker: Some(to_owned_string(worker)), object }
    }

    /// A copy of this address.
    pub fn duplicate(&self) -> (r: Address)
        ensures
            r@ == self@,
    {
        Address {
            worker: match &self.worker {
                Some(w) => Some(w.clone()),
                None => None,
            },
            object: self.object.clone(),
        }
    }

    /// Reads an address from what the URL parser made of `uri`: the scheme must
    /// be `probing`, `http` or `https`, the host names the worker, and the path
    /// is `/objects/` followed by a non-empty object id.
    pub fn from_url_parts(uri: &str, parts: Result<(String, Option<String>, String), String>) -> (r:
        Result<Address, AddressError>)
        ensures
            result_view(r) == address_from_parts(
                uri@,
                match parts {
                    Ok((s, h, p)) => UrlParts::Ok(
                        (
                            s@,
                            match h {
                                Some(x) => Some(x@),
                                None => None,
                            },
                            p@,
                        ),
                    ),
                    Err(m) => UrlParts::Err(m@),
                },
            ),
    {
        match parts {
            Err(m) => {
                let mut msg = String::from_str("Failed to parse URI '");
                msg.append(uri);
                msg.append("': ");
                msg.append(m.as_str());
                Err(AddressError::InvalidUri(msg))
            },
            Ok((scheme, host, path)) => {
                if !(str_eq(scheme.as_str(), "probing") || str_eq(scheme.as_str(), "http")
                    || str_eq(scheme.as_str(), "https")) {
                    return Err(AddressError::UnsupportedScheme { scheme });
                }
                let worker = match host {
                    Some(h) => {
                        if h.as_str().unicode_len() == 0 {
                            return Err(
                                AddressError::InvalidUri(
                                    String::from_str(
                                        "Missing worker ID in URI (host part is empty or not present)",
                                    ),
                                ),
                            );
                        }
                        h
                    },
                    None => {
                        return Err(
                            AddressError::InvalidUri(
                                String::from_str(
                                    "Missing worker ID in URI (host part is empty or not present)",
                                ),
                            ),
                        );
                    },
                };
                match strip_prefix(path.as_str(), "/objects/") {
                    Some(object) => {
                        if object.unicode_len() == 0 {
                            return Err(AddressError::EmptyObject);
                        }
                        Ok(Address { worker: Some(worker), object: to_owned_string(object) })
                    },
                    None => {
                        let mut msg = String::from_str("Unsupported URI path pattern '");
                        msg.append(path.as_str());
                        msg.append(
                            "'. Expected path like /objects/{object_id...} (worker ID should be in the host part of the URI)",
                        );
                        Err(AddressError::InvalidUri(msg))
                    },
                }
            },
        }
    }

    /// Parses an address from a URI of the form `scheme://{worker}/objects/{object}`.
    /// The `probing` URI of an address whose worker and object are written in
    /// plain characters reads back as that address.
    pub fn from_uri(uri: &str) -> (r: Result<Address, AddressError>)
        ensures
            result_view(r) == address_from_parts(uri@, url_parts(uri@)),
            forall|scheme: Seq<char>, wo: (Seq<char>, Seq<char>)|
                #![trigger uri_of(AddressView { worker: Some(wo.0), object: wo.1 }, scheme)]
                supported_scheme(scheme) && host_fits(scheme, wo.0) && plain_path(wo.1) && wo.1.len() > 0
                    && uri@.len() <= u32::MAX && uri@ == uri_of(AddressView { worker: Some(wo.0), object: wo.1 }, scheme)
                    ==> result_view(r) == Ok::<AddressView, AddressErrorView>(
                    AddressView { worker: Some(wo.0), object: wo.1 },
                ),
    {
        let parts = parse_url(uri);
        let r = Self::from_url_parts(uri, parts);
        proof {
            reveal_strlit("probing");
            reveal_strlit("/objects/");
            reveal_strlit("http");
            reveal_strlit("https");
            assert forall|scheme: Seq<char>, wo: (Seq<char>, Seq<char>)|
                supported_scheme(scheme) && host_fits(scheme, wo.0) && plain_path(wo.1) && wo.1.len() > 0
                    && uri@.len() <= u32::MAX && uri@ == #[trigger] uri_of(AddressView { worker: Some(wo.0), object: wo.1 }, scheme)
                    implies result_view(r) == Ok::<AddressView, AddressErrorView>(
                    AddressView { worker: Some(wo.0), object: wo.1 },
                ) by {
                let w = wo.0;
                let o = wo.1;
                reveal_strlit("://");
                let pre = scheme + "://"@;
                assert(uri@ =~= pre + w + "/objects/"@ + o);
                assert(pre.is_prefix_of(uri@));
                let rest = uri@.skip(pre.len() as int);
                assert(rest =~= w + "/objects/"@ + o);
                assert(rest[w.len() as int] == '/');
                assert(forall|j: int| 0 <= j < w.len() ==> rest[j] == w[j]);
                assert(forall|j: int| 0 <= j < w.len() ==> #[trigger] rest[j] != '/') by {
                    assert forall|j: int| 0 <= j < w.len() implies #[trigger] rest[j] != '/' by {
                        if scheme == "probing"@ {
                            assert(plain_char(w[j]));
                        } else {
                            assert(('a' <= w[j] <= 'z') || ('0' <= w[j] <= '9') || w[j] == '-');
                        }
                    }
                }
                assert(0 <= w.len() < rest.len() && rest[w.len() as int] == '/' && forall|j: int|
                    0 <= j < w.len() ==> rest[j] != '/');
                let k = choose|k: int| 0 <= k < rest.len() && rest[k] == '/' && forall|j: int| 0 <= j < k ==> rest[j] != '/';
                assert(first_slash(rest) == Some(k));
                assert(k == w.len()) by {
                    if k < w.len() {
                        assert(rest[k] != '/');
                    } else if k > w.len() {
                        assert(rest[w.len() as int] != '/');
                    }
                }
                assert(rest.take(k) =~= w);
                assert(rest.skip(k) =~= "/objects/"@ + o);
                let path = "/objects/"@ + o;
                assert("/objects/"@.is_prefix_of(path));
                assert(path.skip("/objects/"@.len() as int) =~= o);
                assert(scheme_pieces(scheme, uri@) == Some((w, o)));
            }
        }
        r
    }

    /// The URI `scheme://{worker}/objects/{object}` of this address, with
    /// `UNKNOWN_WORKER` when no worker is assigned.
    pub fn to_uri(&self, scheme: &str) -> (r: String)
        ensures
            r@ == uri_of(self@, scheme@),
    {
        let mut r = String::from_str(scheme);
        r.append("://");
        match &self.worker {
            Some(w) => r.append(w.as_str()),
            None => r.append("UNKNOWN_WORKER"),
        }
        r.append("/objects/");
        r.append(self.object.as_str());
        r
    }

    /// The text form of an address: its URI with the `probing` scheme.
    pub fn to_string(&self) -> (r: String)
        ensures
            r@ == uri_of(self@, "probing"@),
    {
        self.to_uri("probing")
    }

    /// The key that places the address in a shard: its worker, if assigned.
    pub fn shard_key(&self) -> (r: Option<String>)
        ensures
            match r {
                Some(k) => self@.worker == Some(k@),
                None => self@.worker is None,
            },
    {
        match &self.worker {
            Some(w) => Some(w.clone()),
            None => None,
        }
    }

    /// Whether the address lives on the worker `current_worker_id`.
    pub fn is_local(&self, current_worker_id: &str) -> (r: bool)
        ensures
            r == (self@.worker == Some(current_worker_id@)),
    {
        match &self.worker {
            Some(w) => str_eq(w.as_str(), current_worker_id),
            None => false,
        }
    }

    /// Reads `s` as an address URI; text that is not one becomes the object id
    /// of an address without a worker.
    pub fn from_text(s: &str) -> (r: Address)
        ensures
            r@ == match address_from_parts(s@, url_parts(s@)) {
                Ok(a) => a,
                Err(_) => AddressView { worker: None, object: s@ },
            },
    {
        match Self::from_uri(s) {
            Ok(a) => a,
            Err(_) => Address { worker: None, object: to_owned_string(s) },
        }
    }
}

impl<'a> From<&'a str> for Address {
    fn from(s: &'a str) -> (r: Address) {
        Address::from_text(s)
    }
}

impl<'a> vstd::std_specs::convert::FromSpecImpl<&'a str> for Address {
    open spec fn obeys_from_spec() -> bool {
        false
    }

    open spec fn from_spec(s: &'a str) -> Address {
        arbitrary()
    }
}

/// The hash that a fresh `std::collections::hash_map::DefaultHasher` gives a string.
pub uninterp spec fn default_str_hash(s: Seq<char>) -> u64;

/// Hashes `s` with a fresh `std::collections::hash_map::DefaultHasher` (`new`,
/// then `Hash::hash` of the string and `Hasher::finish`). Every hasher that
/// `new` creates starts from the same keys, so the result is claimed to be a
/// function of the text alone; nothing else is said of it.
#[verifier::external_body]
fn hash_str(s: &str) -> (r: u64)
    ensures
        r == default_str_hash(s@),
{
    let mut hasher = std::collections::hash_map::DefaultHasher::new();
    s.hash(&mut hasher);
    hasher.finish()
}

/// The score of placing `object` on `worker`: the hash of `{worker}:{object}`.
/// Higher is preferred.
pub open spec fn score(object: Seq<char>, worker: Seq<char>) -> u64 {
    default_str_hash(worker + ":"@ + object)
}

/// A placement candidate: score, node, worker.
pub type Candidate = (u64, Seq<char>, Seq<char>);

/// The candidates of one node's workers, in list order.
pub open spec fn node_candidates(node: Seq<char>, workers: Seq<Seq<char>>, object: Seq<char>) -> Seq<
    Candidate,
> {
    workers.map_values(|w: Seq<char>| (score(object, w), node, w))
}

/// All workers of the topology as candidates for `object`, node by node in
/// the view's order, leaving out the node `excluded`.
pub open spec fn candidates(e: TopologyEntries, excluded: Option<Seq<char>>, object: Seq<char>) -> Seq<
    Candidate,
>
    decreases e.len(),
{
    if e.len() == 0 {
        Seq::empty()
    } else {
        candidates(e.drop_last(), excluded, object) + if excluded == Some(e.last().0) {
            Seq::<Candidate>::empty()
        } else {
            node_candidates(e.last().0, e.last().1, object)
        }
    }
}

/// Position `p` holds the first candidate of highest score, and that score is
/// positive.
pub open spec fn best_at(c: Seq<Candidate>, p: int) -> bool {
    &&& 0 <= p < c.len()
    &&& c[p].0 > 0
    &&& forall|q: int| 0 <= q < p ==> #[trigger] c[q].0 < c[p].0
    &&& forall|q: int| 0 <= q < c.len() ==> #[trigger] c[q].0 <= c[p].0
}

/// Every candidate scores 0.
pub open spec fn all_zero(c: Seq<Candidate>) -> bool {
    forall|q: int| 0 <= q < c.len() ==> #[trigger] c[q].0 == 0
}

/// Inserts `x` into a list ordered by descending score, after the entries of
/// equal score.
pub open spec fn insert_desc(x: Candidate, s: Seq<Candidate>) -> Seq<Candidate>
    decreases s.len(),
{
    if s.len() == 0 {
        seq![x]
    } else if s[0].0 < x.0 {
        seq![x] + s
    } else {
        seq![s[0]] + insert_desc(x, s.drop_first())
    }
}

/// The candidates ordered by descending score; candidates of equal score keep
/// their order.
pub open spec fn sort_desc(s: Seq<Candidate>) -> Seq<Candidate>
    decreases s.len(),
{
    if s.len() == 0 {
        s
    } else {
        insert_desc(s.last(), sort_desc(s.drop_last()))
    }
}

/// Walks the ordered candidates and takes each one whose node is not used yet,
/// until `n` are taken; gives the (node, worker) pairs taken.
pub open spec fn pick_replicas(s: Seq<Candidate>, n: nat, used: Set<Seq<char>>) -> Seq<
    (Seq<char>, Seq<char>),
>
    decreases s.len(),
{
    if s.len() == 0 || n == 0 {
        Seq::empty()
    } else if used.contains(s[0].1) {
        pick_replicas(s.drop_first(), n, used)
    } else {
        seq![(s[0].1, s[0].2)] + pick_replicas(s.drop_first(), (n - 1) as nat, used.insert(s[0].1))
    }
}

/// The first node, in the view's order, whose workers include `w`.
pub open spec fn find_node(e: TopologyEntries, w: Seq<char>) -> Option<Seq<char>>
    decreases e.len(),
{
    if e.len() == 0 {
        None
    } else if e[0].1.contains(w) {
        Some(e[0].0)
    } else {
        find_node(e.drop_first(), w)
    }
}

/// The node of the primary copy, which replicas avoid.
pub open spec fn primary_node(e: TopologyEntries, primary: AddressView) -> Option<Seq<char>> {
    match primary.worker {
        Some(w) => find_node(e, w),
        None => None,
    }
}

/// The nodes that are taken before any replica is placed.
pub open spec fn initial_used(x: Option<Seq<char>>) -> Set<Seq<char>> {
    match x {
        Some(n) => Set::empty().insert(n),
        None => Set::empty(),
    }
}

/// Where the replicas of `primary` go: (node, worker) pairs, at most `n`.
pub open spec fn replica_placement(e: TopologyEntries, primary: AddressView, n: nat) -> Seq<
    (Seq<char>, Seq<char>),
> {
    let x = primary_node(e, primary);
    pick_replicas(sort_desc(candidates(e, x, primary.object)), n, initial_used(x))
}

/// The text an optional `String` holds.
pub open spec fn opt_view(o: Option<String>) -> Option<Seq<char>> {
    match o {
        Some(v) => Some(v@),
        None => None,
    }
}

/// The address of a replica placed on `p.1`.
pub open spec fn replica_address(p: (Seq<char>, Seq<char>), object: Seq<char>) -> AddressView {
    AddressView { worker: Some(p.1), object }
}

/// The set of the texts in `v`.
pub open spec fn used_set(v: Seq<Seq<char>>) -> Set<Seq<char>> {
    Set::new(|y: Seq<char>| v.contains(y))
}

/// Whether `v` holds the text `s`.
pub fn strings_contain(v: &Vec<String>, s: &str) -> (r: bool)
    ensures
        r == v.deep_view().contains(s@),
{
    let mut i: usize = 0;
    while i < v.len()
        invariant
            i <= v.len(),
            forall|j: int| 0 <= j < i ==> #[trigger] v.deep_view()[j] != s@,
        decreases v.len() - i,
    {
        assert(v.deep_view()[i as int] == v@[i as int]@);
        if str_eq(v[i].as_str(), s) {
            assert(v.deep_view()[i as int] == s@);
            return true;
        }
        i = i + 1;
    }
    false
}

/// `insert_desc` puts `x` at the first position whose score is lower than its own.
proof fn lemma_insert_desc_at(x: Candidate, s: Seq<Candidate>, p: int)
    requires
        0 <= p <= s.len(),
        forall|q: int| 0 <= q < p ==> #[trigger] s[q].0 >= x.0,
        p < s.len() ==> s[p].0 < x.0,
    ensures
        insert_desc(x, s) == s.take(p) + seq![x] + s.skip(p),
    decreases s.len(),
{
    if s.len() == 0 {
        assert(s.take(p) + seq![x] + s.skip(p) =~= seq![x]);
    } else if p == 0 {
        assert(s.take(p) + seq![x] + s.skip(p) =~= seq![x] + s);
    } else {
        let t = s.drop_first();
        assert forall|q: int| 0 <= q < p - 1 implies #[trigger] t[q].0 >= x.0 by {
            assert(t[q] == s[q + 1]);
        }
        lemma_insert_desc_at(x, t, p - 1);
        assert(seq![s[0]] + (t.take(p - 1) + seq![x] + t.skip(p - 1)) =~= s.take(p) + seq![x]
            + s.skip(p));
    }
}

/// A copy of a candidate.
fn clone_candidate(c: &(u64, String, String)) -> (r: (u64, String, String))
    ensures
        r.deep_view() == c.deep_view(),
{
    (c.0, c.1.clone(), c.2.clone())
}

/// Orders the candidates by descending score, keeping the order of equal scores.
pub fn sort_by_score_desc(v: &Vec<(u64, String, String)>) -> (r: Vec<(u64, String, String)>)
    ensures
        r.deep_view() == sort_desc(v.deep_view()),
{
    let ghost s = v.deep_view();
    let mut r: Vec<(u64, String, String)> = Vec::new();
    assert(s.take(0) =~= Seq::<Candidate>::empty());
    let mut i: usize = 0;
    while i < v.len()
        invariant
            i <= v.len(),
            s == v.deep_view(),
            r.deep_view() == sort_desc(s.take(i as int)),
        decreases v.len() - i,
    {
        let x = clone_candidate(&v[i]);
        let ghost xv = x.deep_view();
        let ghost sorted = r.deep_view();
        let mut p: usize = 0;
        while p < r.len() && r[p].0 >= x.0
            invariant
                p <= r.len(),
                sorted == r.deep_view(),
                xv == x.deep_view(),
                forall|q: int| 0 <= q < p ==> #[trigger] sorted[q].0 >= xv.0,
            decreases r.len() - p,
        {
            assert(sorted[p as int].0 == r@[p as int].0);
            p = p + 1;
        }
        proof {
            if p < r.len() {
                assert(sorted[p as int].0 == r@[p as int].0);
            }
            lemma_insert_desc_at(xv, sorted, p as int);
            assert(s.take(i + 1).drop_last() =~= s.take(i as int));
            assert(s.take(i + 1).last() == s[i as int]);
            assert(xv == s[i as int]);
        }
        r.insert(p, x);
        assert(r.deep_view() =~= sorted.take(p as int) + seq![xv] + sorted.skip(p as int));
        i = i + 1;
    }
    assert(s.take(v.len() as int) =~= s);
    r
}

/// Places objects on the workers of a topology: the primary copy on the
/// worker with the highest score, and replicas on other nodes.
pub struct AddressAllocator {
    topology: TopologyView,
    replica_count: usize,
    topology_ttl: u64,
}

impl AddressAllocator {
    /// The topology the allocator places on.
    pub closed spec fn spec_topology(&self) -> TopologyView {
        self.topology
    }

    /// How many replicas besides the primary it places.
    pub closed spec fn spec_replica_count(&self) -> usize {
        self.replica_count
    }

    /// How old, in seconds, the topology may be for placement.
    pub closed spec fn spec_topology_ttl(&self) -> u64 {
        self.topology_ttl
    }

    /// An allocator over `topology` that places `replica_count` replicas besides
    /// the primary; the topology may be 300 seconds old.
    pub fn new(topology: TopologyView, replica_count: usize) -> (r: Self)
        ensures
            r.spec_topology() == topology,
            r.spec_replica_count() == replica_count,
            r.spec_topology_ttl() == 300,
    {
        AddressAllocator { topology, replica_count, topology_ttl: 300 }
    }

    /// The same allocator with another age limit for the topology.
    pub fn with_topology_ttl(self, ttl_seconds: u64) -> (r: Self)
        ensures
            r.spec_topology() == self.spec_topology(),
            r.spec_replica_count() == self.spec_replica_count(),
            r.spec_topology_ttl() == ttl_seconds,
    {
        AddressAllocator { topology: self.topology, replica_count: self.replica_count, topology_ttl: ttl_seconds }
    }

    /// The topology the allocator places on.
    pub fn topology(&self) -> (r: &TopologyView)
        ensures
            *r == self.spec_topology(),
    {
        &self.topology
    }

    /// How old, in seconds, the topology may be for placement.
    pub fn topology_ttl(&self) -> (r: u64)
        ensures
            r == self.spec_topology_ttl(),
    {
        self.topology_ttl
    }

    /// The score of placing `object` on `worker`.
    pub fn calculate_assignment_score(&self, object: &str, worker: &str) -> (r: u64)
        ensures
            r == score(object@, worker@),
    {
        let mut key = String::from_str(worker);
        key.append(":");
        key.append(object);
        hash_str(key.as_str())
    }

    /// The workers of the topology as candidates for `object`, leaving out the
    /// node `excluded`.
    fn collect_candidates(&self, excluded: &Option<String>, object: &str) -> (r: Vec<
        (u64, String, String),
    >)
        ensures
            r.deep_view() == candidates(
                self.topology.entries(),
                match excluded {
                    Some(x) => Some(x@),
                    None => None,
                },
                object@,
            ),
    {
        let ghost e = self.topology.entries();
        let ghost x: Option<Seq<char>> = match excluded {
            Some(x) => Some(x@),
            None => None,
        };
        let mut r: Vec<(u64, String, String)> = Vec::new();
        let n = self.topology.workers_per_node.len();
        assert(e.take(0) =~= Seq::<(Seq<char>, Seq<Seq<char>>)>::empty());
        let mut i: usize = 0;
        while i < n
            invariant
                n == self.topology.workers_per_node.len(),
                e == self.topology.entries(),
                x == match excluded {
                    Some(x) => Some(x@),
                    None => None::<Seq<char>>,
                },
                i <= n,
                r.deep_view() == candidates(e.take(i as int), x, object@),
            decreases n - i,
        {
            let node = &self.topology.workers_per_node[i].0;
            let workers = &self.topology.workers_per_node[i].1;
            assert(e[i as int].0 == node@);
            assert(e[i as int].1 == workers.deep_view());
            let skip = match excluded {
                Some(xs) => str_eq(xs.as_str(), node.as_str()),
                None => false,
            };
            proof {
                assert(e.take(i + 1).drop_last() =~= e.take(i as int));
                assert(e.take(i + 1).last() == e[i as int]);
            }
            if !skip {
                let ghost base = r.deep_view();
                let m = workers.len();
                let mut j: usize = 0;
                while j < m
                    invariant
                        m == workers.len(),
                        j <= m,
                        r.deep_view() == base + node_candidates(
                            node@,
                            workers.deep_view().take(j as int),
                            object@,
                        ),
                    decreases m - j,
                {
                    let sc = self.calculate_assignment_score(object, workers[j].as_str());
                    let ghost before = r.deep_view();
                    r.push((sc, node.clone(), workers[j].clone()));
                    assert(workers.deep_view()[j as int] == workers@[j as int]@);
                    assert(r.deep_view() =~= before.push((sc, node@, workers@[j as int]@)));
                    assert(node_candidates(node@, workers.deep_view().take(j + 1), object@)
                        =~= node_candidates(node@, workers.deep_view().take(j as int), object@).push(
                        (sc, node@, workers@[j as int]@),
                    ));
                    j = j + 1;
                }
                assert(workers.deep_view().take(m as int) =~= workers.deep_view());
                assert(r.deep_view() =~= candidates(e.take(i + 1), x, object@));
            } else {
                assert(r.deep_view() =~= candidates(e.take(i + 1), x, object@));
            }
            i = i + 1;
        }
        assert(e.take(n as int) =~= e);
        r
    }

    /// The first node, in the view's order, whose workers include `worker`.
    fn find_node_of(&self, worker: &str) -> (r: Option<String>)
        ensures
            match r {
                Some(x) => find_node(self.topology.entries(), worker@) == Some(x@),
                None => find_node(self.topology.entries(), worker@) is None,
            },
    {
        let ghost e = self.topology.entries();
        let n = self.topology.workers_per_node.len();
        assert(e.skip(0) =~= e);
        let mut i: usize = 0;
        while i < n
            invariant
                n == self.topology.workers_per_node.len(),
                e == self.topology.entries(),
                i <= n,
                find_node(e, worker@) == find_node(e.skip(i as int), worker@),
            decreases n - i,
        {
            assert(e.skip(i as int)[0] == e[i as int]);
            assert(e.skip(i as int).drop_first() =~= e.skip(i + 1));
            assert(e[i as int].1 == self.topology.workers_per_node@[i as int].1.deep_view());
            if strings_contain(&self.topology.workers_per_node[i].1, worker) {
                return Some(self.topology.workers_per_node[i].0.clone());
            }
            i = i + 1;
        }
        assert(e.skip(n as int).len() == 0);
        None
    }

    /// Allocates the primary address of an object. An address that already
    /// names a worker is kept. Otherwise, when the topology is sufficient (as
    /// the caller has judged it), the object goes to the first worker of highest
    /// positive score.
    pub fn allocate_primary_address(&self, addr: Address, topology_sufficient: bool) -> (r: Result<
        Address,
        AddressError,
    >)
        ensures
            addr@.object.len() == 0 ==> result_view(r) == Err::<AddressView, AddressErrorView>(
                AddressErrorView::EmptyObject,
            ),
            addr@.object.len() > 0 && addr@.worker is Some ==> result_view(r) == Ok::<
                AddressView,
                AddressErrorView,
            >(addr@),
            addr@.object.len() > 0 && addr@.worker is None && !topology_sufficient ==> result_view(
                r,
            ) == Err::<AddressView, AddressErrorView>(AddressErrorView::InsufficientTopology),
            addr@.object.len() > 0 && addr@.worker is None && topology_sufficient ==> {
                let c = candidates(self.spec_topology().entries(), None, addr@.object);
                &&& (result_view(r) == Err::<AddressView, AddressErrorView>(
                    AddressErrorView::NoAvailableNodes,
                )) == all_zero(c)
                &&& r is Ok || all_zero(c)
                &&& r is Ok ==> exists|p: int|
                    best_at(c, p) && r->Ok_0@ == (AddressView {
                        worker: Some(#[trigger] c[p].2),
                        object: addr@.object,
                    })
            },
    {
        if addr.object.as_str().unicode_len() == 0 {
            return Err(AddressError::EmptyObject);
        }
        if addr.worker.is_some() {
            return Ok(addr);
        }
        if !topology_sufficient {
            return Err(AddressError::InsufficientTopology);
        }
        let c = self.collect_candidates(&None, addr.object.as_str());
        let ghost cv = c.deep_view();
        assert(cv == candidates(self.spec_topology().entries(), None, addr@.object));
        let mut max_score: u64 = 0;
        let mut best: Option<usize> = None;
        let mut k: usize = 0;
        while k < c.len()
            invariant
                k <= c.len(),
                cv == c.deep_view(),
                best is None ==> max_score == 0 && forall|q: int|
                    0 <= q < k ==> #[trigger] cv[q].0 == 0,
                best is Some ==> {
                    let p = best->Some_0 as int;
                    &&& 0 <= p < k
                    &&& cv[p].0 == max_score
                    &&& max_score > 0
                    &&& forall|q: int| 0 <= q < p ==> #[trigger] cv[q].0 < max_score
                    &&& forall|q: int| 0 <= q < k ==> #[trigger] cv[q].0 <= max_score
                },
            decreases c.len() - k,
        {
            assert(cv[k as int].0 == c@[k as int].0);
            if c[k].0 > max_score {
                max_score = c[k].0;
                best = Some(k);
            }
            k = k + 1;
        }
        match best {
            Some(p) => {
                assert(best_at(cv, p as int));
                assert(cv[p as int].2 == c@[p as int].2@);
                let w = c[p].2.clone();
                let r = Address { worker: Some(w), object: addr.object };
                proof {
                    if all_zero(cv) {
                        assert(cv[p as int].0 == 0);
                    }
                }
                Ok(r)
            },
            None => {
                assert(all_zero(cv));
                Err(AddressError::NoAvailableNodes)
            },
        }
    }

    /// Allocates replica addresses for `primary`: up to `num_replicas_to_find`
    /// workers, each on a different node and none on the primary's node, taken
    /// in order of descending score. Fewer come back when fewer nodes are left;
    /// none when none are asked for. Asked for replicas, a primary without a
    /// worker, or whose worker is on no node of the topology, is an internal
    /// error.
    pub fn allocate_replica_addresses(&self, primary: &Address, num_replicas_to_find: usize) -> (r:
        Result<Vec<Address>, AddressError>)
        ensures
            num_replicas_to_find > 0 && primary_node(self.spec_topology().entries(), primary@) is None
                <==> r is Err,
            r matches Err(e) ==> e@ is InternalError,
            r matches Ok(v) ==> v@.len() == replica_placement(
                self.spec_topology().entries(),
                primary@,
                num_replicas_to_find as nat,
            ).len() && forall|k: int|
                0 <= k < v@.len() ==> #[trigger] v@[k]@ == replica_address(
                    replica_placement(
                        self.spec_topology().entries(),
                        primary@,
                        num_replicas_to_find as nat,
                    )[k],
                    primary@.object,
                ),
    {
        let ghost e = self.topology.entries();
        let ghost n = num_replicas_to_find as nat;
        let ghost object = primary.object@;
        if num_replicas_to_find == 0 {
            let ghost s = sort_desc(candidates(e, primary_node(e, primary@), object));
            assert(pick_replicas(s, 0, initial_used(primary_node(e, primary@))) =~= Seq::empty());
            return Ok(Vec::new());
        }
        let excluded: Option<String> = match &primary.worker {
            Some(w) => self.find_node_of(w.as_str()),
            None => {
                return Err(AddressError::InternalError(String::from_str("primary address has no worker id")));
            },
        };
        let ghost x = primary_node(e, primary@);
        assert(x == match excluded {
            Some(v) => Some(v@),
            None => None::<Seq<char>>,
        });
        if excluded.is_none() {
            return Err(
                AddressError::InternalError(String::from_str("node of the primary worker not found in topology")),
            );
        }
        let replicas = self.place_replicas(&excluded, primary.object.as_str(), num_replicas_to_find);
        Ok(replicas)
    }

    /// The replicas of an object that no worker holds yet: placed as for a
    /// primary (see `allocate_replica_addresses`), but with no node left out,
    /// since there is no primary's node. This is where readers and deleters
    /// that know only the object look for its copies.
    pub fn allocate_unassigned_replicas(&self, object: &str, num_replicas_to_find: usize) -> (r: Vec<Address>)
        ensures
            r@.len() == replica_placement(
                self.spec_topology().entries(),
                AddressView { worker: None, object: object@ },
                num_replicas_to_find as nat,
            ).len(),
            forall|k: int|
                0 <= k < r@.len() ==> #[trigger] r@[k]@ == replica_address(
                    replica_placement(
                        self.spec_topology().entries(),
                        AddressView { worker: None, object: object@ },
                        num_replicas_to_find as nat,
                    )[k],
                    object@,
                ),
    {
        let none: Option<String> = None;
        self.place_replicas(&none, object, num_replicas_to_find)
    }

    /// The replicas of `object_text` placed by walking the workers in
    /// descending score order, one per node, the node `excluded` taken before
    /// the walk, until `num_replicas_to_find` are placed.
    fn place_replicas(&self, excluded: &Option<String>, object_text: &str, num_replicas_to_find: usize) -> (r: Vec<
        Address,
    >)
        ensures
            r@.len() == pick_replicas(
                sort_desc(candidates(self.spec_topology().entries(), opt_view(*excluded), object_text@)),
                num_replicas_to_find as nat,
                initial_used(opt_view(*excluded)),
            ).len(),
            forall|k: int|
                0 <= k < r@.len() ==> #[trigger] r@[k]@ == replica_address(
                    pick_replicas(
                        sort_desc(candidates(self.spec_topology().entries(), opt_view(*excluded), object_text@)),
                        num_replicas_to_find as nat,
                        initial_used(opt_view(*excluded)),
                    )[k],
                    object_text@,
                ),
    {
        let ghost e = self.topology.entries();
        let ghost n = num_replicas_to_find as nat;
        let ghost object = object_text@;
        let ghost x = opt_view(*excluded);
        let cands = self.collect_candidates(excluded, object_text);
        let sorted = sort_by_score_desc(&cands);
        let ghost s = sorted.deep_view();
        let ghost target = pick_replicas(s, n, initial_used(x));
        let mut used: Vec<String> = Vec::new();
        match excluded {
            Some(v) => used.push(v.clone()),
            None => {},
        }
        let mut replicas: Vec<Address> = Vec::new();
        let ghost mut done: Seq<(Seq<char>, Seq<char>)> = Seq::empty();
        proof {
            assert(s.skip(0) =~= s);
            assert(used_set(used.deep_view()) =~= initial_used(x)) by {
                match excluded {
                    Some(v) => {
                        assert(used.deep_view()[0] == v@);
                    },
                    None => {},
                }
            }
            assert(done + target =~= target);
        }
        let mut i: usize = 0;
        while i < sorted.len() && replicas.len() < num_replicas_to_find
            invariant
                i <= sorted.len(),
                s == sorted.deep_view(),
                n == num_replicas_to_find,
                object == object_text@,
                replicas@.len() == done.len(),
                done.len() <= n,
                forall|k: int|
                    0 <= k < replicas@.len() ==> #[trigger] replicas@[k]@ == replica_address(
                        done[k],
                        object,
                    ),
                target == done + pick_replicas(
                    s.skip(i as int),
                    (n - done.len()) as nat,
                    used_set(used.deep_view()),
                ),
            decreases sorted.len() - i,
        {
            let ghost uset = used_set(used.deep_view());
            let ghost rest = s.skip(i as int);
            let ghost m = (n - done.len()) as nat;
            proof {
                assert(rest[0] == s[i as int]);
                assert(rest.drop_first() =~= s.skip(i + 1));
                assert(s[i as int].1 == sorted@[i as int].1@);
                assert(s[i as int].2 == sorted@[i as int].2@);
            }
            let node = &sorted[i].1;
            if !strings_contain(&used, node.as_str()) {
                replicas.push(Address { worker: Some(sorted[i].2.clone()), object: to_owned_string(object_text) });
                let ghost before = used.deep_view();
                used.push(node.clone());
                proof {
                    assert(used.deep_view() =~= before.push(node@));
                    assert forall|y: Seq<char>| #[trigger] used.deep_view().contains(y) == (before.contains(y) || y == node@) by {
                        if used.deep_view().contains(y) {
                            let j = choose|j: int| 0 <= j < used.deep_view().len() && used.deep_view()[j] == y;
                            if j < before.len() {
                                assert(before[j] == y);
                            }
                        }
                        if before.contains(y) {
                            let j = choose|j: int| 0 <= j < before.len() && before[j] == y;
                            assert(used.deep_view()[j] == y);
                        }
                        if y == node@ {
                            assert(used.deep_view()[before.len() as int] == y);
                        }
                    }
                    assert(used_set(used.deep_view()) =~= uset.insert(node@));
                    let item = (node@, s[i as int].2);
                    assert(pick_replicas(rest, m, uset) == seq![item] + pick_replicas(
                        s.skip(i + 1),
                        (m - 1) as nat,
                        uset.insert(node@),
                    ));
                    assert(done.push(item) + pick_replicas(s.skip(i + 1), (m - 1) as nat, uset.insert(node@))
                        =~= done + pick_replicas(rest, m, uset));
                    done = done.push(item);
                }
            } else {
                assert(pick_replicas(rest, m, uset) == pick_replicas(s.skip(i + 1), m, uset));
            }
            i = i + 1;
        }
        proof {
            let last = pick_replicas(s.skip(i as int), (n - done.len()) as nat, used_set(used.deep_view()));
            if i == sorted.len() {
                assert(s.skip(i as int).len() == 0);
            } else {
                assert(done.len() == n);
            }
            assert(last.len() == 0);
            assert(target =~= done);
        }
        replicas
    }

    /// Allocates all addresses of an object: the primary first, then the
    /// replicas (see `allocate_primary_address`, `allocate_replica_addresses`).
    pub fn allocate_addresses(&self, addr: Address, topology_sufficient: bool) -> (r: Result<
        Vec<Address>,
        AddressError,
    >)
        ensures
            addr@.object.len() == 0 ==> (r matches Err(e) && e@ == AddressErrorView::EmptyObject),
            addr@.object.len() > 0 && addr@.worker is None && !topology_sufficient ==> (r matches Err(e) && e@
                == AddressErrorView::InsufficientTopology),
            addr@.object.len() > 0 && addr@.worker is None && topology_sufficient && all_zero(
                candidates(self.spec_topology().entries(), None, addr@.object),
            ) ==> (r matches Err(e) && e@ == AddressErrorView::NoAvailableNodes),
            addr@.object.len() > 0 && addr@.worker is None && topology_sufficient && !all_zero(
                candidates(self.spec_topology().entries(), None, addr@.object),
            ) ==> r is Ok,
            addr@.object.len() > 0 && addr@.worker is Some ==> (r is Ok <==> (self.spec_replica_count() == 0
                || primary_node(self.spec_topology().entries(), addr@) is Some)),
            addr@.object.len() > 0 && addr@.worker is Some && self.spec_replica_count() > 0 && primary_node(
                self.spec_topology().entries(),
                addr@,
            ) is None ==> (r matches Err(e) && e@ is InternalError),
            match r {
                Ok(v) => v@.len() >= 1 && {
                    let p = v@[0]@;
                    &&& addr@.object.len() > 0
                    &&& (addr@.worker is Some ==> p == addr@)
                    &&& (addr@.worker is None ==> topology_sufficient && exists|q: int|
                        best_at(candidates(self.spec_topology().entries(), None, addr@.object), q) && p == (
                        AddressView {
                            worker: Some(
                                #[trigger] candidates(self.spec_topology().entries(), None, addr@.object)[q].2,
                            ),
                            object: addr@.object,
                        }))
                    &&& v@.len() == 1 + replica_placement(
                        self.spec_topology().entries(),
                        p,
                        self.spec_replica_count() as nat,
                    ).len()
                    &&& forall|k: int|
                        0 <= k < v@.len() - 1 ==> #[trigger] v@[k + 1]@ == replica_address(
                            replica_placement(
                                self.spec_topology().entries(),
                                p,
                                self.spec_replica_count() as nat,
                            )[k],
                            p.object,
                        )
                },
                Err(e) => e@ is InternalError ==> addr@.object.len() > 0 && addr@.worker is Some
                    && self.spec_replica_count() > 0 && primary_node(self.spec_topology().entries(), addr@) is None,
            },
    {
        let ghost a = addr@;
        let primary = match self.allocate_primary_address(addr, topology_sufficient) {
            Ok(p) => p,
            Err(e) => {
                return Err(e);
            },
        };
        proof {
            if a.worker is None {
                let e = self.spec_topology().entries();
                let c = candidates(e, None, a.object);
                let q = choose|q: int| best_at(c, q) && primary@ == (AddressView { worker: Some(#[trigger] c[q].2), object: a.object });
                lemma_candidates(e, None, a.object);
                let j = choose|j: int|
                    0 <= j < e.len() && e[j].0 == c[q].1 && e[j].1.contains(c[q].2) && None::<Seq<char>> != Some(e[j].0)
                        && c[q].0 == score(a.object, c[q].2);
                lemma_find_node_some(e, j, c[q].2);
            }
        }
        let replicas = match self.allocate_replica_addresses(&primary, self.replica_count) {
            Ok(v) => v,
            Err(e) => {
                return Err(e);
            },
        };
        let mut all: Vec<Address> = Vec::new();
        all.push(primary);
        let mut k: usize = 0;
        while k < replicas.len()
            invariant
                k <= replicas.len(),
                all@.len() == k + 1,
                all@[0]@ == primary@,
                forall|j: int| 0 <= j < k ==> #[trigger] all@[j + 1]@ == replicas@[j]@,
            decreases replicas.len() - k,
        {
            all.push(replicas[k].duplicate());
            k = k + 1;
        }
        Ok(all)
    }
}

/// A worker listed by some node is found on a node.
pub proof fn lemma_find_node_some(e: TopologyEntries, j: int, w: Seq<char>)
    requires
        0 <= j < e.len(),
        e[j].1.contains(w),
    ensures
        find_node(e, w) is Some,
    decreases j,
{
    if !e[0].1.contains(w) {
        lemma_find_node_some(e.drop_first(), j - 1, w);
    }
}

/// What the replica walk takes: at most `n` pairs, each from the list, on
/// nodes that are pairwise distinct and not used before; when it takes fewer
/// than `n`, every node of the list was used before or is taken.
pub proof fn lemma_pick_replicas(s: Seq<Candidate>, n: nat, used: Set<Seq<char>>)
    ensures
        pick_replicas(s, n, used).len() <= n,
        forall|i: int|
            0 <= i < pick_replicas(s, n, used).len() ==> !used.contains(
                #[trigger] pick_replicas(s, n, used)[i].0,
            ),
        forall|i: int, j: int|
            0 <= i < j < pick_replicas(s, n, used).len() ==> #[trigger] pick_replicas(
                s,
                n,
                used,
            )[i].0 != #[trigger] pick_replicas(s, n, used)[j].0,
        forall|i: int|
            0 <= i < pick_replicas(s, n, used).len() ==> exists|k: int|
                0 <= k < s.len() && s[k].1 == (#[trigger] pick_replicas(s, n, used)[i]).0 && s[k].2
                    == pick_replicas(s, n, used)[i].1,
        pick_replicas(s, n, used).len() < n ==> forall|k: int|
            0 <= k < s.len() ==> used.contains(#[trigger] s[k].1) || exists|i: int|
                0 <= i < pick_replicas(s, n, used).len() && pick_replicas(s, n, used)[i].0 == s[k].1,
    decreases s.len(),
{
    let out = pick_replicas(s, n, used);
    if s.len() == 0 || n == 0 {
    } else {
        let t = s.drop_first();
        if used.contains(s[0].1) {
            lemma_pick_replicas(t, n, used);
            assert forall|i: int| 0 <= i < out.len() implies exists|k: int|
                0 <= k < s.len() && s[k].1 == (#[trigger] out[i]).0 && s[k].2 == out[i].1 by {
                let k = choose|k: int| 0 <= k < t.len() && t[k].1 == out[i].0 && t[k].2 == out[i].1;
                assert(s[k + 1] == t[k]);
            }
            if out.len() < n {
                assert forall|k: int| 0 <= k < s.len() implies used.contains(#[trigger] s[k].1)
                    || exists|i: int| 0 <= i < out.len() && out[i].0 == s[k].1 by {
                    if k > 0 {
                        assert(s[k] == t[k - 1]);
                    }
                }
            }
        } else {
            let u2 = used.insert(s[0].1);
            let rest = pick_replicas(t, (n - 1) as nat, u2);
            lemma_pick_replicas(t, (n - 1) as nat, u2);
            assert(out == seq![(s[0].1, s[0].2)] + rest);
            assert forall|i: int| 0 <= i < out.len() implies !used.contains(
                #[trigger] out[i].0,
            ) by {
                if i > 0 {
                    assert(out[i] == rest[i - 1]);
                }
            }
            assert forall|i: int, j: int| 0 <= i < j < out.len() implies #[trigger] out[i].0
                != #[trigger] out[j].0 by {
                assert(out[j] == rest[j - 1]);
                if i > 0 {
                    assert(out[i] == rest[i - 1]);
                } else {
                    assert(u2.contains(out[i].0));
                }
            }
            assert forall|i: int| 0 <= i < out.len() implies exists|k: int|
                0 <= k < s.len() && s[k].1 == (#[trigger] out[i]).0 && s[k].2 == out[i].1 by {
                if i == 0 {
                    assert(s[0].1 == out[0].0);
                } else {
                    assert(out[i] == rest[i - 1]);
                    let k = choose|k: int|
                        0 <= k < t.len() && t[k].1 == rest[i - 1].0 && t[k].2 == rest[i - 1].1;
                    assert(s[k + 1] == t[k]);
                }
            }
            if out.len() < n {
                assert forall|k: int| 0 <= k < s.len() implies used.contains(#[trigger] s[k].1)
                    || exists|i: int| 0 <= i < out.len() && out[i].0 == s[k].1 by {
                    if k == 0 {
                        assert(out[0].0 == s[0].1);
                    } else {
                        assert(s[k] == t[k - 1]);
                        if u2.contains(t[k - 1].1) && !used.contains(s[k].1) {
                            assert(out[0].0 == s[k].1);
                        } else if !u2.contains(t[k - 1].1) {
                            let i = choose|i: int| 0 <= i < rest.len() && rest[i].0 == t[k - 1].1;
                            assert(out[i + 1] == rest[i]);
                        }
                    }
                }
            }
        }
    }
}

/// Inserting into an ordered list adds exactly that element.
proof fn lemma_insert_desc_contains(x: Candidate, t: Seq<Candidate>)
    ensures
        insert_desc(x, t).len() == t.len() + 1,
        forall|y: Candidate| #[trigger] insert_desc(x, t).contains(y) == (t.contains(y) || y == x),
    decreases t.len(),
{
    if t.len() > 0 && t[0].0 >= x.0 {
        lemma_insert_desc_contains(x, t.drop_first());
        let r = insert_desc(x, t);
        assert(r == seq![t[0]] + insert_desc(x, t.drop_first()));
        assert forall|y: Candidate| #[trigger] r.contains(y) == (t.contains(y) || y == x) by {
            let tail = insert_desc(x, t.drop_first());
            if r.contains(y) {
                let j = choose|j: int| 0 <= j < r.len() && r[j] == y;
                if j > 0 {
                    assert(tail[j - 1] == y);
                    assert(tail.contains(y));
                    if t.drop_first().contains(y) {
                        let k = choose|k: int| 0 <= k < t.drop_first().len() && t.drop_first()[k] == y;
                        assert(t[k + 1] == y);
                    }
                } else {
                    assert(t[0] == y);
                }
            }
            if t.contains(y) {
                let k = choose|k: int| 0 <= k < t.len() && t[k] == y;
                if k == 0 {
                    assert(r[0] == y);
                } else {
                    assert(t.drop_first()[k - 1] == y);
                    assert(tail.contains(y));
                    let j = choose|j: int| 0 <= j < tail.len() && tail[j] == y;
                    assert(r[j + 1] == y);
                }
            }
            if y == x {
                assert(tail.contains(x));
                let j = choose|j: int| 0 <= j < tail.len() && tail[j] == x;
                assert(r[j + 1] == x);
            }
        }
    } else {
        let r = insert_desc(x, t);
        assert(r =~= seq![x] + t);
        assert forall|y: Candidate| #[trigger] r.contains(y) == (t.contains(y) || y == x) by {
            if r.contains(y) {
                let j = choose|j: int| 0 <= j < r.len() && r[j] == y;
                if j > 0 {
                    assert(t[j - 1] == y);
                }
            }
            if t.contains(y) {
                let k = choose|k: int| 0 <= k < t.len() && t[k] == y;
                assert(r[k + 1] == y);
            }
            if y == x {
                assert(r[0] == x);
            }
        }
    }
}

/// Ordering the candidates keeps exactly the same candidates.
pub proof fn lemma_sort_desc_contains(s: Seq<Candidate>)
    ensures
        sort_desc(s).len() == s.len(),
        forall|y: Candidate| #[trigger] sort_desc(s).contains(y) == s.contains(y),
    decreases s.len(),
{
    if s.len() > 0 {
        let p = s.drop_last();
        lemma_sort_desc_contains(p);
        lemma_insert_desc_contains(s.last(), sort_desc(p));
        assert forall|y: Candidate| #[trigger] sort_desc(s).contains(y) == s.contains(y) by {
            if p.contains(y) {
                let k = choose|k: int| 0 <= k < p.len() && p[k] == y;
                assert(s[k] == y);
            }
            if s.contains(y) {
                let k = choose|k: int| 0 <= k < s.len() && s[k] == y;
                if k < s.len() - 1 {
                    assert(p[k] == y);
                } else {
                    assert(y == s.last());
                }
            }
            if y == s.last() {
                assert(s[s.len() - 1] == y);
            }
        }
    }
}

/// The candidates are in descending order of score.
pub open spec fn descending(s: Seq<Candidate>) -> bool {
    forall|i: int, j: int| 0 <= i < j < s.len() ==> #[trigger] s[i].0 >= #[trigger] s[j].0
}

proof fn lemma_insert_desc_sorted(x: Candidate, t: Seq<Candidate>)
    requires
        descending(t),
    ensures
        descending(insert_desc(x, t)),
    decreases t.len(),
{
    lemma_insert_desc_contains(x, t);
    let r = insert_desc(x, t);
    if t.len() > 0 {
        if t[0].0 < x.0 {
            assert(r =~= seq![x] + t);
            assert forall|i: int, j: int| 0 <= i < j < r.len() implies #[trigger] r[i].0 >= #[trigger] r[j].0 by {
                if i == 0 {
                    assert(r[j] == t[j - 1]);
                    if j > 1 {
                        assert(t[0].0 >= t[j - 1].0);
                    }
                } else {
                    assert(r[i] == t[i - 1] && r[j] == t[j - 1]);
                }
            }
        } else {
            let rest = t.drop_first();
            assert(descending(rest)) by {
                assert forall|i: int, j: int| 0 <= i < j < rest.len() implies #[trigger] rest[i].0 >= #[trigger] rest[j].0 by {
                    assert(rest[i] == t[i + 1] && rest[j] == t[j + 1]);
                }
            }
            lemma_insert_desc_sorted(x, rest);
            lemma_insert_desc_contains(x, rest);
            let tail = insert_desc(x, rest);
            assert(r == seq![t[0]] + tail);
            assert forall|i: int, j: int| 0 <= i < j < r.len() implies #[trigger] r[i].0 >= #[trigger] r[j].0 by {
                if i == 0 {
                    assert(r[j] == tail[j - 1]);
                    assert(tail.contains(tail[j - 1]));
                    if rest.contains(tail[j - 1]) {
                        let k = choose|k: int| 0 <= k < rest.len() && rest[k] == tail[j - 1];
                        assert(t[k + 1] == rest[k]);
                        assert(t[0].0 >= t[k + 1].0);
                    }
                } else {
                    assert(r[i] == tail[i - 1] && r[j] == tail[j - 1]);
                }
            }
        }
    }
}

/// Ordering the candidates puts them in descending order of score.
proof fn lemma_sort_desc_sorted(s: Seq<Candidate>)
    ensures
        descending(sort_desc(s)),
    decreases s.len(),
{
    if s.len() > 0 {
        lemma_sort_desc_sorted(s.drop_last());
        lemma_insert_desc_sorted(s.last(), sort_desc(s.drop_last()));
    }
}

/// The positions in `s` of the candidates that `pick_replicas` takes.
pub open spec fn pick_positions(s: Seq<Candidate>, n: nat, used: Set<Seq<char>>) -> Seq<int>
    decreases s.len(),
{
    if s.len() == 0 || n == 0 {
        Seq::empty()
    } else if used.contains(s[0].1) {
        pick_positions(s.drop_first(), n, used).map_values(|q: int| q + 1)
    } else {
        seq![0int] + pick_positions(s.drop_first(), (n - 1) as nat, used.insert(s[0].1)).map_values(
            |q: int| q + 1,
        )
    }
}

/// The replica walk takes candidates at increasing positions of the list;
/// every candidate before a taken one is on a node used before the walk or
/// taken earlier.
proof fn lemma_pick_positions(s: Seq<Candidate>, n: nat, used: Set<Seq<char>>)
    ensures
        pick_positions(s, n, used).len() == pick_replicas(s, n, used).len(),
        forall|i: int|
            0 <= i < pick_positions(s, n, used).len() ==> 0 <= #[trigger] pick_positions(s, n, used)[i] < s.len()
                && pick_replicas(s, n, used)[i] == (
                s[pick_positions(s, n, used)[i]].1,
                s[pick_positions(s, n, used)[i]].2,
            ),
        forall|i: int, j: int|
            0 <= i < j < pick_positions(s, n, used).len() ==> #[trigger] pick_positions(s, n, used)[i]
                < #[trigger] pick_positions(s, n, used)[j],
        forall|i: int, q: int|
            0 <= i < pick_positions(s, n, used).len() && 0 <= q < #[trigger] pick_positions(s, n, used)[i]
                ==> used.contains(#[trigger] s[q].1) || exists|j: int|
                0 <= j < i && #[trigger] pick_replicas(s, n, used)[j].0 == s[q].1,
    decreases s.len(),
{
    if s.len() == 0 || n == 0 {
    } else {
        let rest = s.drop_first();
        let ps = pick_positions(s, n, used);
        let pl = pick_replicas(s, n, used);
        if used.contains(s[0].1) {
            lemma_pick_positions(rest, n, used);
            let ps1 = pick_positions(rest, n, used);
            let pl1 = pick_replicas(rest, n, used);
            assert(ps == ps1.map_values(|q: int| q + 1));
            assert(pl == pl1);
            assert forall|i: int| 0 <= i < ps.len() implies 0 <= #[trigger] ps[i] < s.len() && pl[i] == (
                s[ps[i]].1,
                s[ps[i]].2,
            ) by {
                assert(ps[i] == ps1[i] + 1);
                assert(s[ps[i]] == rest[ps1[i]]);
            }
            assert forall|i: int, j: int| 0 <= i < j < ps.len() implies #[trigger] ps[i] < #[trigger] ps[j] by {
                assert(ps[i] == ps1[i] + 1 && ps[j] == ps1[j] + 1);
            }
            assert forall|i: int, q: int| 0 <= i < ps.len() && 0 <= q < #[trigger] ps[i] implies used.contains(
                #[trigger] s[q].1,
            ) || exists|j: int| 0 <= j < i && #[trigger] pl[j].0 == s[q].1 by {
                assert(ps[i] == ps1[i] + 1);
                if q > 0 {
                    assert(s[q] == rest[q - 1]);
                    assert(q - 1 < ps1[i]);
                    assert(used.contains(rest[q - 1].1) || exists|j: int| 0 <= j < i && #[trigger] pl1[j].0 == rest[q - 1].1);
                }
            }
        } else {
            let used2 = used.insert(s[0].1);
            let m = (n - 1) as nat;
            lemma_pick_positions(rest, m, used2);
            let ps1 = pick_positions(rest, m, used2);
            let pl1 = pick_replicas(rest, m, used2);
            assert(ps == seq![0int] + ps1.map_values(|q: int| q + 1));
            assert(pl == seq![(s[0].1, s[0].2)] + pl1);
            assert forall|i: int| 0 <= i < ps.len() implies 0 <= #[trigger] ps[i] < s.len() && pl[i] == (
                s[ps[i]].1,
                s[ps[i]].2,
            ) by {
                if i > 0 {
                    assert(ps[i] == ps1[i - 1] + 1);
                    assert(pl[i] == pl1[i - 1]);
                    assert(s[ps[i]] == rest[ps1[i - 1]]);
                }
            }
            assert forall|i: int, j: int| 0 <= i < j < ps.len() implies #[trigger] ps[i] < #[trigger] ps[j] by {
                assert(ps[j] == ps1[j - 1] + 1);
                if i > 0 {
                    assert(ps[i] == ps1[i - 1] + 1);
                }
            }
            assert forall|i: int, q: int| 0 <= i < ps.len() && 0 <= q < #[trigger] ps[i] implies used.contains(
                #[trigger] s[q].1,
            ) || exists|j: int| 0 <= j < i && #[trigger] pl[j].0 == s[q].1 by {
                assert(i > 0);
                assert(ps[i] == ps1[i - 1] + 1);
                assert(pl[0].0 == s[0].1);
                if q > 0 {
                    assert(s[q] == rest[q - 1]);
                    assert(q - 1 < ps1[i - 1]);
                    if !used2.contains(rest[q - 1].1) {
                        let j1 = choose|j1: int| 0 <= j1 < i - 1 && #[trigger] pl1[j1].0 == rest[q - 1].1;
                        assert(pl[j1 + 1] == pl1[j1]);
                    }
                }
            }
        }
    }
}

/// Every candidate is a worker of a non-excluded node of the topology, scored
/// for the object; and every such worker is a candidate.
pub proof fn lemma_candidates(e: TopologyEntries, x: Option<Seq<char>>, object: Seq<char>)
    ensures
        forall|k: int|
            0 <= k < candidates(e, x, object).len() ==> exists|i: int|
                0 <= i < e.len() && e[i].0 == (#[trigger] candidates(e, x, object)[k]).1 && e[i].1.contains(
                    candidates(e, x, object)[k].2,
                ) && x != Some(e[i].0) && candidates(e, x, object)[k].0 == score(
                    object,
                    candidates(e, x, object)[k].2,
                ),
        forall|i: int, w: Seq<char>|
            0 <= i < e.len() && x != Some(e[i].0) && #[trigger] e[i].1.contains(w) ==> candidates(
                e,
                x,
                object,
            ).contains((score(object, w), e[i].0, w)),
    decreases e.len(),
{
    if e.len() > 0 {
        let p = e.drop_last();
        lemma_candidates(p, x, object);
        let c = candidates(e, x, object);
        let cp = candidates(p, x, object);
        let last = e.last();
        let add = if x == Some(last.0) {
            Seq::<Candidate>::empty()
        } else {
            node_candidates(last.0, last.1, object)
        };
        assert(c == cp + add);
        assert forall|k: int| 0 <= k < c.len() implies exists|i: int|
            0 <= i < e.len() && e[i].0 == (#[trigger] c[k]).1 && e[i].1.contains(c[k].2) && x != Some(
                e[i].0,
            ) && c[k].0 == score(object, c[k].2) by {
            if k < cp.len() {
                assert(c[k] == cp[k]);
                let i = choose|i: int|
                    0 <= i < p.len() && p[i].0 == cp[k].1 && p[i].1.contains(cp[k].2) && x != Some(
                        p[i].0,
                    ) && cp[k].0 == score(object, cp[k].2);
                assert(e[i] == p[i]);
            } else {
                let j = k - cp.len();
                assert(c[k] == add[j]);
                assert(add[j] == (score(object, last.1[j]), last.0, last.1[j]));
                assert(last.1.contains(last.1[j]));
                assert(e[e.len() - 1] == last);
            }
        }
        assert forall|i: int, w: Seq<char>|
            0 <= i < e.len() && x != Some(e[i].0) && #[trigger] e[i].1.contains(w) implies c.contains(
            (score(object, w), e[i].0, w),
        ) by {
            if i < e.len() - 1 {
                assert(p[i] == e[i]);
                assert(p[i].1.contains(w));
                let k = choose|k: int| 0 <= k < cp.len() && cp[k] == (score(object, w), e[i].0, w);
                assert(c[k] == cp[k]);
            } else {
                let j = choose|j: int| 0 <= j < last.1.len() && last.1[j] == w;
                assert(c[cp.len() + j] == add[j]);
            }
        }
    }
}

/// Replicas land on distinct nodes of the topology, never on the primary's
/// node, at most as many as asked for; each replica worker runs on its node.
pub proof fn law_replicas_on_distinct_nodes(t: TopologyView, primary: AddressView, n: nat)
    requires
        t.wf(),
    ensures
        replica_placement(t.entries(), primary, n).len() <= n,
        forall|i: int, j: int|
            0 <= i < j < replica_placement(t.entries(), primary, n).len() ==> #[trigger] replica_placement(
                t.entries(),
                primary,
                n,
            )[i].0 != #[trigger] replica_placement(t.entries(), primary, n)[j].0,
        forall|i: int|
            0 <= i < replica_placement(t.entries(), primary, n).len() ==> primary_node(
                t.entries(),
                primary,
            ) != Some(#[trigger] replica_placement(t.entries(), primary, n)[i].0),
        forall|i: int|
            0 <= i < replica_placement(t.entries(), primary, n).len() ==> t.nodes().dom().contains(
                (#[trigger] replica_placement(t.entries(), primary, n)[i]).0,
            ) && t.nodes()[replica_placement(t.entries(), primary, n)[i].0].contains(
                replica_placement(t.entries(), primary, n)[i].1,
            ),
{
    let e = t.entries();
    let x = primary_node(e, primary);
    let c = candidates(e, x, primary.object);
    let s = sort_desc(c);
    let pl = replica_placement(e, primary, n);
    lemma_pick_replicas(s, n, initial_used(x));
    lemma_sort_desc_contains(c);
    lemma_candidates(e, x, primary.object);
    assert forall|i: int| 0 <= i < pl.len() implies x != Some(#[trigger] pl[i].0) by {
        if x == Some(pl[i].0) {
            assert(initial_used(x).contains(pl[i].0));
        }
    }
    assert forall|i: int| 0 <= i < pl.len() implies t.nodes().dom().contains((#[trigger] pl[i]).0)
        && t.nodes()[pl[i].0].contains(pl[i].1) by {
        let k = choose|k: int| 0 <= k < s.len() && s[k].1 == pl[i].0 && s[k].2 == pl[i].1;
        assert(s.contains(s[k]));
        assert(c.contains(s[k]));
        let kc = choose|kc: int| 0 <= kc < c.len() && c[kc] == s[k];
        let j = choose|j: int|
            0 <= j < e.len() && e[j].0 == c[kc].1 && e[j].1.contains(c[kc].2) && x != Some(e[j].0)
                && c[kc].0 == score(primary.object, c[kc].2);
        crate::topology::lemma_entries_map_at(e, j);
    }
}

/// Fewer replicas than asked for come back only when every other node that
/// has a worker already holds one.
pub proof fn law_replicas_fill_available_nodes(t: TopologyView, primary: AddressView, n: nat)
    requires
        t.wf(),
    ensures
        replica_placement(t.entries(), primary, n).len() < n ==> forall|node: Seq<char>|
            #[trigger] t.nodes().dom().contains(node) && t.nodes()[node].len() > 0 && primary_node(
                t.entries(),
                primary,
            ) != Some(node) ==> exists|i: int|
                0 <= i < replica_placement(t.entries(), primary, n).len() && replica_placement(
                    t.entries(),
                    primary,
                    n,
                )[i].0 == node,
{
    let e = t.entries();
    let x = primary_node(e, primary);
    let c = candidates(e, x, primary.object);
    let s = sort_desc(c);
    let pl = replica_placement(e, primary, n);
    lemma_pick_replicas(s, n, initial_used(x));
    lemma_sort_desc_contains(c);
    lemma_candidates(e, x, primary.object);
    if pl.len() < n {
        assert forall|node: Seq<char>|
            #[trigger] t.nodes().dom().contains(node) && t.nodes()[node].len() > 0 && x != Some(
                node,
            ) implies exists|i: int| 0 <= i < pl.len() && pl[i].0 == node by {
            let j = choose|j: int| 0 <= j < e.len() && e[j].0 == node;
            crate::topology::lemma_entries_map_at(e, j);
            let w = e[j].1[0];
            assert(e[j].1.contains(w));
            let cand = (score(primary.object, w), node, w);
            assert(c.contains(cand));
            assert(s.contains(cand));
            let k = choose|k: int| 0 <= k < s.len() && s[k] == cand;
            assert(s[k].1 == node);
            assert(!initial_used(x).contains(node));
        }
    }
}

/// Each listed candidate carries its worker's score.
proof fn lemma_listed_scores(e: TopologyEntries, x: Option<Seq<char>>, obj: Seq<char>)
    ensures
        forall|k: int|
            0 <= k < sort_desc(candidates(e, x, obj)).len() ==> (#[trigger] sort_desc(candidates(e, x, obj))[k]).0
                == score(obj, sort_desc(candidates(e, x, obj))[k].2),
{
    let c = candidates(e, x, obj);
    let s = sort_desc(c);
    lemma_sort_desc_contains(c);
    lemma_candidates(e, x, obj);
    assert forall|k: int| 0 <= k < s.len() implies (#[trigger] s[k]).0 == score(obj, s[k].2) by {
        assert(s.contains(s[k]));
        assert(c.contains(s[k]));
        let kc = choose|kc: int| 0 <= kc < c.len() && c[kc] == s[k];
        assert(c[kc].0 == score(obj, c[kc].2));
    }
}

/// Every worker of a node of the topology, but for the node `x`, is listed.
proof fn lemma_listed_workers(t: TopologyView, x: Option<Seq<char>>, obj: Seq<char>, node: Seq<char>, w: Seq<char>)
    requires
        t.wf(),
        t.nodes().dom().contains(node),
        t.nodes()[node].contains(w),
        x != Some(node),
    ensures
        exists|q: int|
            0 <= q < sort_desc(candidates(t.entries(), x, obj)).len() && #[trigger] sort_desc(
                candidates(t.entries(), x, obj),
            )[q] == (score(obj, w), node, w),
{
    let e = t.entries();
    let c = candidates(e, x, obj);
    lemma_sort_desc_contains(c);
    lemma_candidates(e, x, obj);
    let jn = choose|jn: int| 0 <= jn < e.len() && e[jn].0 == node;
    crate::topology::lemma_entries_map_at(e, jn);
    assert(e[jn].1.contains(w));
    assert(c.contains((score(obj, w), node, w)));
    assert(sort_desc(c).contains((score(obj, w), node, w)));
}

proof fn lemma_replicas_descend(t: TopologyView, primary: AddressView, n: nat)
    requires
        t.wf(),
    ensures
        forall|i: int, j: int|
            0 <= i < j < replica_placement(t.entries(), primary, n).len() ==> score(
                primary.object,
                #[trigger] replica_placement(t.entries(), primary, n)[i].1,
            ) >= score(primary.object, #[trigger] replica_placement(t.entries(), primary, n)[j].1),
{
    let e = t.entries();
    let obj = primary.object;
    let x = primary_node(e, primary);
    let s = sort_desc(candidates(e, x, obj));
    let used = initial_used(x);
    let pl = replica_placement(e, primary, n);
    let ps = pick_positions(s, n, used);
    lemma_pick_positions(s, n, used);
    lemma_sort_desc_sorted(candidates(e, x, obj));
    lemma_listed_scores(e, x, obj);
    assert forall|i: int| 0 <= i < pl.len() implies #[trigger] score(obj, pl[i].1) == s[ps[i]].0 by {
        assert(s[ps[i]].0 == score(obj, s[ps[i]].2));
    }
    assert forall|i: int, j: int| 0 <= i < j < pl.len() implies score(obj, #[trigger] pl[i].1) >= score(
        obj,
        #[trigger] pl[j].1,
    ) by {
        assert(ps[i] < ps[j]);
        assert(s[ps[i]].0 >= s[ps[j]].0);
        assert(score(obj, pl[i].1) == s[ps[i]].0);
        assert(score(obj, pl[j].1) == s[ps[j]].0);
    }
}

#[verifier::spinoff_prover]
proof fn lemma_replica_best_on_node(t: TopologyView, primary: AddressView, n: nat)
    requires
        t.wf(),
    ensures
        forall|i: int, w: Seq<char>|
            0 <= i < replica_placement(t.entries(), primary, n).len() && #[trigger] t.nodes()[replica_placement(
                t.entries(),
                primary,
                n,
            )[i].0].contains(w) ==> score(primary.object, w) <= score(
                primary.object,
                replica_placement(t.entries(), primary, n)[i].1,
            ),
{
    let e = t.entries();
    let obj = primary.object;
    let x = primary_node(e, primary);
    let s = sort_desc(candidates(e, x, obj));
    let used = initial_used(x);
    let pl = replica_placement(e, primary, n);
    let ps = pick_positions(s, n, used);
    lemma_pick_positions(s, n, used);
    lemma_sort_desc_sorted(candidates(e, x, obj));
    lemma_listed_scores(e, x, obj);
    assert forall|i: int| 0 <= i < pl.len() implies #[trigger] score(obj, pl[i].1) == s[ps[i]].0 by {
        assert(s[ps[i]].0 == score(obj, s[ps[i]].2));
    }
    lemma_pick_replicas(s, n, used);
    law_replicas_on_distinct_nodes(t, primary, n);
    assert forall|i: int, w: Seq<char>|
        0 <= i < pl.len() && #[trigger] t.nodes()[pl[i].0].contains(w) implies score(obj, w) <= score(
        obj,
        pl[i].1,
    ) by {
        let node = pl[i].0;
        lemma_listed_workers(t, x, obj, node, w);
        let q = choose|q: int| 0 <= q < s.len() && #[trigger] s[q] == (score(obj, w), node, w);
        assert(score(obj, pl[i].1) == s[ps[i]].0);
        if q < ps[i] {
            assert(s[q].1 == node);
            if !used.contains(s[q].1) {
                let jj = choose|jj: int| 0 <= jj < i && #[trigger] pl[jj].0 == s[q].1;
                assert(pl[jj].0 != pl[i].0);
            }
        } else {
            assert(s[ps[i]].0 >= s[q].0);
        }
    }
}

#[verifier::spinoff_prover]
proof fn lemma_replicas_beat_the_rest(t: TopologyView, primary: AddressView, n: nat)
    requires
        t.wf(),
    ensures
        replica_placement(t.entries(), primary, n).len() == n ==> forall|node: Seq<char>, w: Seq<char>, i: int|
            #![trigger t.nodes()[node].contains(w), replica_placement(t.entries(), primary, n)[i]]
            t.nodes().dom().contains(node) && t.nodes()[node].contains(w) && primary_node(t.entries(), primary) != Some(
                node,
            ) && (forall|k: int|
                0 <= k < replica_placement(t.entries(), primary, n).len() ==> (#[trigger] replica_placement(
                    t.entries(),
                    primary,
                    n,
                )[k]).0 != node) && 0 <= i < replica_placement(t.entries(), primary, n).len() ==> score(
                primary.object,
                w,
            ) <= score(primary.object, replica_placement(t.entries(), primary, n)[i].1),
{
    let e = t.entries();
    let obj = primary.object;
    let x = primary_node(e, primary);
    let s = sort_desc(candidates(e, x, obj));
    let used = initial_used(x);
    let pl = replica_placement(e, primary, n);
    let ps = pick_positions(s, n, used);
    lemma_pick_positions(s, n, used);
    lemma_sort_desc_sorted(candidates(e, x, obj));
    lemma_listed_scores(e, x, obj);
    assert forall|i: int| 0 <= i < pl.len() implies #[trigger] score(obj, pl[i].1) == s[ps[i]].0 by {
        assert(s[ps[i]].0 == score(obj, s[ps[i]].2));
    }
    if pl.len() == n {
        assert forall|node: Seq<char>, w: Seq<char>, i: int|
            #![trigger t.nodes()[node].contains(w), pl[i]]
            t.nodes().dom().contains(node) && t.nodes()[node].contains(w) && x != Some(node) && (forall|k: int|
                0 <= k < pl.len() ==> (#[trigger] pl[k]).0 != node) && 0 <= i < pl.len() implies score(obj, w)
            <= score(obj, pl[i].1) by {
            let last = pl.len() - 1;
            lemma_listed_workers(t, x, obj, node, w);
            let q = choose|q: int| 0 <= q < s.len() && #[trigger] s[q] == (score(obj, w), node, w);
            assert(score(obj, pl[i].1) == s[ps[i]].0);
            assert(!used.contains(node)) by {
                if used.contains(node) {
                    assert(x == Some(node));
                }
            }
            if q < ps[last] {
                assert(s[q].1 == node);
                let jj = choose|jj: int| 0 <= jj < last && #[trigger] pl[jj].0 == s[q].1;
                assert(pl[jj].0 != node);
            } else if q == ps[last] {
                assert(pl[last].0 == s[q].1);
            } else {
                assert(s[ps[last]].0 >= s[q].0);
                if i < last {
                    assert(ps[i] < ps[last]);
                    assert(s[ps[i]].0 >= s[ps[last]].0);
                }
            }
        }
    }
}

/// Replicas are taken best first: they come in descending order of score;
/// each one's worker scores highest among the workers of its node; and when
/// as many replicas as asked for were placed, no worker of another node that
/// got none (the primary's node aside) scores above any of them.
pub proof fn law_replicas_best_first(t: TopologyView, primary: AddressView, n: nat)
    requires
        t.wf(),
    ensures
        forall|i: int, j: int|
            0 <= i < j < replica_placement(t.entries(), primary, n).len() ==> score(
                primary.object,
                #[trigger] replica_placement(t.entries(), primary, n)[i].1,
            ) >= score(primary.object, #[trigger] replica_placement(t.entries(), primary, n)[j].1),
        forall|i: int, w: Seq<char>|
            0 <= i < replica_placement(t.entries(), primary, n).len() && #[trigger] t.nodes()[replica_placement(
                t.entries(),
                primary,
                n,
            )[i].0].contains(w) ==> score(primary.object, w) <= score(
                primary.object,
                replica_placement(t.entries(), primary, n)[i].1,
            ),
        replica_placement(t.entries(), primary, n).len() == n ==> forall|node: Seq<char>, w: Seq<char>, i: int|
            #![trigger t.nodes()[node].contains(w), replica_placement(t.entries(), primary, n)[i]]
            t.nodes().dom().contains(node) && t.nodes()[node].contains(w) && primary_node(t.entries(), primary) != Some(
                node,
            ) && (forall|k: int|
                0 <= k < replica_placement(t.entries(), primary, n).len() ==> (#[trigger] replica_placement(
                    t.entries(),
                    primary,
                    n,
                )[k]).0 != node) && 0 <= i < replica_placement(t.entries(), primary, n).len() ==> score(
                primary.object,
                w,
            ) <= score(primary.object, replica_placement(t.entries(), primary, n)[i].1),
{
    lemma_replicas_descend(t, primary, n);
    lemma_replica_best_on_node(t, primary, n);
    lemma_replicas_beat_the_rest(t, primary, n);
}

/// The nodes that can take a replica: those of the topology with a worker,
/// but for the node `x` of the primary.
pub open spec fn replica_nodes(t: TopologyView, x: Option<Seq<char>>) -> Set<Seq<char>> {
    t.nodes().dom().filter(|node: Seq<char>| x != Some(node) && t.nodes()[node].len() > 0)
}

/// As many replicas are placed as asked for, or as there are nodes that can
/// take one, whichever is fewer.
pub proof fn law_replica_count(t: TopologyView, primary: AddressView, n: nat)
    requires
        t.wf(),
    ensures
        replica_placement(t.entries(), primary, n).len() == if n <= replica_nodes(
            t,
            primary_node(t.entries(), primary),
        ).len() {
            n
        } else {
            replica_nodes(t, primary_node(t.entries(), primary)).len()
        },
{
    let e = t.entries();
    let x = primary_node(e, primary);
    let pl = replica_placement(e, primary, n);
    let avail = replica_nodes(t, x);
    law_replicas_on_distinct_nodes(t, primary, n);
    law_replicas_fill_available_nodes(t, primary, n);
    let keys = e.map_values(|p: (Seq<char>, Seq<Seq<char>>)| p.0);
    assert(t.nodes().dom() =~= keys.to_set()) by {
        assert forall|k: Seq<char>| t.nodes().dom().contains(k) implies keys.to_set().contains(k) by {
            let i = choose|i: int| 0 <= i < e.len() && e[i].0 == k;
            assert(keys[i] == k);
        }
        assert forall|k: Seq<char>| keys.to_set().contains(k) implies t.nodes().dom().contains(k) by {
            let i = choose|i: int| 0 <= i < keys.len() && keys[i] == k;
            assert(e[i].0 == k);
        }
    }
    assert(keys.to_set().finite()) by {
        vstd::seq_lib::seq_to_set_is_finite(keys);
    }
    vstd::set_lib::lemma_len_subset(avail, t.nodes().dom());
    let chosen = pl.map_values(|p: (Seq<char>, Seq<char>)| p.0);
    assert(chosen.no_duplicates()) by {
        assert forall|i: int, j: int| 0 <= i < chosen.len() && 0 <= j < chosen.len() && i != j implies chosen[i]
            != chosen[j] by {
            if i < j {
                assert(pl[i].0 != pl[j].0);
            } else {
                assert(pl[j].0 != pl[i].0);
            }
        }
    }
    chosen.unique_seq_to_set();
    assert(chosen.to_set().subset_of(avail)) by {
        assert forall|k: Seq<char>| chosen.to_set().contains(k) implies avail.contains(k) by {
            let i = choose|i: int| 0 <= i < chosen.len() && chosen[i] == k;
            assert(pl[i].0 == k);
            assert(t.nodes()[k].contains(pl[i].1));
        }
    }
    vstd::set_lib::lemma_len_subset(chosen.to_set(), avail);
    if pl.len() < n {
        assert(avail.subset_of(chosen.to_set())) by {
            assert forall|k: Seq<char>| avail.contains(k) implies chosen.to_set().contains(k) by {
                assert(t.nodes().dom().contains(k) && t.nodes()[k].len() > 0 && x != Some(k));
                let i = choose|i: int| 0 <= i < pl.len() && pl[i].0 == k;
                assert(chosen[i] == k);
            }
        }
        vstd::set_lib::lemma_len_subset(avail, chosen.to_set());
    }
}

/// The primary worker chosen for an unassigned object runs on a node of the
/// topology and scores at least as high as every worker of the topology.
pub proof fn law_primary_is_best_worker(t: TopologyView, object: Seq<char>, p: int)
    requires
        t.wf(),
        best_at(candidates(t.entries(), None, object), p),
    ensures
        exists|node: Seq<char>|
            #[trigger] t.nodes().dom().contains(node) && t.nodes()[node].contains(
                candidates(t.entries(), None, object)[p].2,
            ),
        forall|node: Seq<char>, w: Seq<char>|
            #[trigger] t.nodes().dom().contains(node) && #[trigger] t.nodes()[node].contains(w)
                ==> score(object, w) <= candidates(t.entries(), None, object)[p].0,
{
    let e = t.entries();
    let c = candidates(e, None, object);
    lemma_candidates(e, None, object);
    let j = choose|j: int|
        0 <= j < e.len() && e[j].0 == c[p].1 && e[j].1.contains(c[p].2) && None::<Seq<char>> != Some(
            e[j].0,
        ) && c[p].0 == score(object, c[p].2);
    crate::topology::lemma_entries_map_at(e, j);
    assert(t.nodes().dom().contains(e[j].0));
    assert forall|node: Seq<char>, w: Seq<char>|
        #[trigger] t.nodes().dom().contains(node) && #[trigger] t.nodes()[node].contains(w) implies score(
        object,
        w,
    ) <= c[p].0 by {
        let i = choose|i: int| 0 <= i < e.len() && e[i].0 == node;
        crate::topology::lemma_entries_map_at(e, i);
        assert(e[i].1.contains(w));
        let k = choose|k: int| 0 <= k < c.len() && c[k] == (score(object, w), e[i].0, w);
        assert(c[k].0 <= c[p].0);
    }
}

} // verus!
