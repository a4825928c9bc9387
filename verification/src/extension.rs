//! Engine extensions: their options, how calls are routed to them, and a
//! value that may be absent.
use vstd::prelude::*;

use crate::error::{EngineError, EngineErrorView};
use crate::keyed::{distinct_keys, has_key, keyed_map, lemma_keyed_insert, lemma_keyed_push, lemma_keyed_update};
use crate::text::{
    lemma_text_lt_irreflexive, lemma_text_lt_total, lemma_text_lt_transitive, starts_with, str_eq, text_less, text_lt,
    to_owned_string,
};

verus! {

/// A value that may be absent; an empty text reads as absent.
#[derive(Clone, Debug, Default)]
pub enum Maybe<T> {
    Just(T),
    #[default]
    Nothing,
}

impl<T> Maybe<T> {
    /// What reading `s` gives, where `parsed` is what parsing `s` as a `T`
    /// gave: nothing for an empty text or a failed parse, else the value.
    pub fn from_parse<E>(s: &str, parsed: Result<T, E>) -> (r: Maybe<T>)
        ensures
            s@.len() == 0 ==> r is Nothing,
            s@.len() > 0 ==> match parsed {
                Ok(v) => r == Maybe::Just(v),
                Err(_) => r is Nothing,
            },
    {
        if s.unicode_len() == 0 {
            Maybe::Nothing
        } else {
            match parsed {
                Ok(v) => Maybe::Just(v),
                Err(_) => Maybe::Nothing,
            }
        }
    }

    /// The value, as an `Option`.
    pub fn into_option(self) -> (r: Option<T>)
        ensures
            match self {
                Maybe::Just(v) => r == Some(v),
                Maybe::Nothing => r is None,
            },
    {
        match self {
            Maybe::Just(v) => Some(v),
            Maybe::Nothing => None,
        }
    }
}

impl Maybe<String> {
    /// The text of the value; empty where there is none.
    pub fn to_text(&self) -> (r: String)
        ensures
            match self {
                Maybe::Just(v) => r@ == v@,
                Maybe::Nothing => r@.len() == 0,
            },
    {
        match self {
            Maybe::Just(v) => v.clone(),
            Maybe::Nothing => String::new(),
        }
    }
}

/// A configuration option of an engine extension.
pub struct EngineExtensionOption {
    /// The name of the option, unique among the options of an extension.
    pub key: String,
    /// The value, where one is set.
    pub value: Option<String>,
    /// What the option is for.
    pub help: &'static str,
}

impl EngineExtensionOption {
    /// The key under which the option is listed among the engine settings:
    /// `probing.` and the option's key.
    pub fn setting_key(&self) -> (r: String)
        ensures
            r@ == "probing."@ + self.key@,
    {
        let mut r = String::from_str("probing.");
        r.append(self.key.as_str());
        r
    }
}

/// The part of `s` after its first `/` (nothing where it has none).
pub open spec fn after_slash(s: Seq<char>) -> Seq<char>
    decreases s.len(),
{
    if s.len() == 0 {
        s
    } else if s[0] == '/' {
        s.skip(1)
    } else {
        after_slash(s.skip(1))
    }
}

/// The path that an extension named `name` is handed for a call to `path`,
/// where `path` begins with `/name/`: the segments of `path` after its first
/// one, `/a/b/c` giving `b/c`; nothing where `path` does not begin so.
pub open spec fn routed_path(path: Seq<char>, name: Seq<char>) -> Option<Seq<char>> {
    let head = "/"@ + name + "/"@;
    if head.is_prefix_of(path) {
        Some(after_slash(path.skip(1)))
    } else {
        None
    }
}

/// Routes a call: the path that the extension named `name` is handed, if the
/// call is for it.
pub fn route_call(path: &str, name: &str) -> (r: Option<String>)
    ensures
        match r {
            Some(p) => routed_path(path@, name@) == Some(p@),
            None => routed_path(path@, name@) is None,
        },
{
    let mut head = String::from_str("/");
    head.append(name);
    head.append("/");
    if starts_with(path, head.as_str()) {
        let n = path.unicode_len();
        proof {
            reveal_strlit("/");
            assert(head@.len() >= 2);
        }
        let mut k: usize = 1;
        while k < n && path.get_char(k) != '/'
            invariant
                1 <= k <= n,
                n == path@.len(),
                after_slash(path@.skip(1)) == after_slash(path@.skip(k as int)),
            decreases n - k,
        {
            proof {
                assert(path@.skip(k as int).skip(1) =~= path@.skip(k + 1));
            }
            k = k + 1;
        }
        let rest = if k < n {
            proof {
                assert(path@.skip(k as int).skip(1) =~= path@.skip(k + 1));
            }
            path.substring_char(k + 1, n)
        } else {
            path.substring_char(n, n)
        };
        assert(rest@ =~= after_slash(path@.skip(1)));
        Some(to_owned_string(rest))
    } else {
        None
    }
}

/// What routing a setting does after one extension answered: stop with
/// success, try the next extension, or stop with the error.
pub enum SetStep {
    Done,
    Next,
    Fail(EngineError),
}

/// The step after an extension answered a setting: an extension that does not
/// know the option passes it on; any other error stops the routing.
pub fn after_set(answer: Result<String, EngineError>) -> (r: SetStep)
    ensures
        match answer {
            Ok(_) => r is Done,
            Err(e) => match e@ {
                EngineErrorView::UnsupportedOption(_) => r is Next,
                _ => r matches SetStep::Fail(f) && f == e,
            },
        },
{
    match answer {
        Ok(_) => SetStep::Done,
        Err(EngineError::UnsupportedOption(m)) => SetStep::Next,
        Err(e) => SetStep::Fail(e),
    }
}

/// The step after an extension answered a call: one that does not support
/// the call passes it on; any other error stops the routing.
pub fn after_call(answer: Result<Vec<u8>, EngineError>) -> (r: Option<Result<Vec<u8>, EngineError>>)
    ensures
        match answer {
            Ok(v) => r == Some(Ok::<Vec<u8>, EngineError>(v)),
            Err(e) => match e@ {
                EngineErrorView::UnsupportedCall => r is None,
                _ => r == Some(Err::<Vec<u8>, EngineError>(e)),
            },
        },
{
    match answer {
        Ok(v) => Some(Ok(v)),
        Err(EngineError::UnsupportedCall) => None,
        Err(e) => Some(Err(e)),
    }
}

/// The error when no extension knows an option.
pub fn unsupported_option(key: &str) -> (r: EngineError)
    ensures
        r@ == EngineErrorView::UnsupportedOption(key@),
{
    EngineError::UnsupportedOption(String::from_str(key))
}

/// The error when no extension takes a call.
pub fn unrouted_call(path: &str) -> (r: EngineError)
    ensures
        r@ == EngineErrorView::CallError(path@),
{
    EngineError::CallError(String::from_str(path))
}

/// The settings that options hold: each option with a value, by key; where
/// two options share a key, the later one counts.
pub open spec fn settings_map(options: Seq<(Seq<char>, Option<Seq<char>>)>) -> Map<Seq<char>, Seq<char>>
    decreases options.len(),
{
    if options.len() == 0 {
        Map::empty()
    } else {
        let m = settings_map(options.drop_last());
        match options.last().1 {
            Some(v) => m.insert(options.last().0, v),
            None => m,
        }
    }
}

/// The key and value of an option.
pub open spec fn option_view(o: EngineExtensionOption) -> (Seq<char>, Option<Seq<char>>) {
    (
        o.key@,
        match o.value {
            Some(v) => Some(v@),
            None => None,
        },
    )
}

/// The settings that options hold, as distinct (key, value) pairs.
pub fn options_to_settings(options: &Vec<EngineExtensionOption>) -> (r: Vec<(String, String)>)
    ensures
        distinct_keys(r@.map_values(|p: (String, String)| (p.0@, p.1@))),
        keyed_map(r@.map_values(|p: (String, String)| (p.0@, p.1@))) == settings_map(
            options@.map_values(|o: EngineExtensionOption| option_view(o)),
        ),
{
    let ghost ov = options@.map_values(|o: EngineExtensionOption| option_view(o));
    let mut r: Vec<(String, String)> = Vec::new();
    let mut i: usize = 0;
    assert(keyed_map(r@.map_values(|p: (String, String)| (p.0@, p.1@))) =~= Map::<Seq<char>, Seq<char>>::empty());
    assert(ov.take(0) =~= Seq::<(Seq<char>, Option<Seq<char>>)>::empty());
    while i < options.len()
        invariant
            i <= options@.len(),
            ov == options@.map_values(|o: EngineExtensionOption| option_view(o)),
            distinct_keys(r@.map_values(|p: (String, String)| (p.0@, p.1@))),
            keyed_map(r@.map_values(|p: (String, String)| (p.0@, p.1@))) == settings_map(ov.take(i as int)),
        decreases options.len() - i,
    {
        let ghost rv = r@.map_values(|p: (String, String)| (p.0@, p.1@));
        assert(ov.take(i + 1).drop_last() =~= ov.take(i as int));
        assert(ov.take(i + 1).last() == option_view(options@[i as int]));
        match &options[i].value {
            Some(v) => {
                let key = options[i].key.as_str();
                let mut j: usize = 0;
                let mut found: Option<usize> = None;
                while j < r.len() && found.is_none()
                    invariant
                        j <= r@.len(),
                        rv == r@.map_values(|p: (String, String)| (p.0@, p.1@)),
                        match found {
                            Some(k) => k < rv.len() && rv[k as int].0 == key@,
                            None => forall|q: int| 0 <= q < j ==> #[trigger] rv[q].0 != key@,
                        },
                    decreases r.len() - j,
                {
                    assert(rv[j as int].0 == r@[j as int].0@);
                    if crate::text::str_eq(r[j].0.as_str(), key) {
                        found = Some(j);
                    }
                    j = j + 1;
                }
                let pair = (String::from_str(key), v.clone());
                match found {
                    Some(k) => {
                        proof {
                            assert(rv[k as int].0 == key@);
                            lemma_keyed_update(rv, k as int, v@);
                        }
                        r.set(k, pair);
                        assert(r@.map_values(|p: (String, String)| (p.0@, p.1@)) =~= rv.update(
                            k as int,
                            (rv[k as int].0, v@),
                        ));
                    },
                    None => {
                        proof {
                            lemma_keyed_push(rv, key@, v@);
                        }
                        r.push(pair);
                        assert(r@.map_values(|p: (String, String)| (p.0@, p.1@)) =~= rv.push((key@, v@)));
                    },
                }
            },
            None => {},
        }
        i = i + 1;
    }
    assert(ov.take(options@.len() as int) =~= ov);
    r
}

/// The values found for `keys`, `reads[i]` being what reading `keys[i]`
/// gave: each key whose read succeeded, with its value; a key read twice
/// keeps the value read last.
pub open spec fn found_values(keys: Seq<Seq<char>>, reads: Seq<Result<String, EngineError>>) -> Map<Seq<char>, Seq<char>>
    decreases keys.len(),
{
    if keys.len() == 0 || reads.len() == 0 {
        Map::empty()
    } else {
        let before = found_values(keys.drop_last(), reads.drop_last());
        match reads.last() {
            Ok(v) => before.insert(keys.last(), v@),
            Err(_) => before,
        }
    }
}

/// The value of a pair of texts.
pub open spec fn text_pair_view(p: (String, String)) -> (Seq<char>, Seq<char>) {
    (p.0@, p.1@)
}

/// Collects the values read for several keys (see `found_values`), each key
/// once.
pub fn collect_found(keys: &Vec<String>, reads: Vec<Result<String, EngineError>>) -> (r: Vec<(String, String)>)
    requires
        keys@.len() == reads@.len(),
    ensures
        distinct_keys(r@.map_values(|p: (String, String)| text_pair_view(p))),
        keyed_map(r@.map_values(|p: (String, String)| text_pair_view(p))) == found_values(keys.deep_view(), reads@),
{
    let ghost kv = keys.deep_view();
    let mut r: Vec<(String, String)> = Vec::new();
    let mut i: usize = 0;
    assert(keyed_map(r@.map_values(|p: (String, String)| text_pair_view(p))) =~= Map::<Seq<char>, Seq<char>>::empty());
    assert(kv.take(0) =~= Seq::<Seq<char>>::empty());
    while i < keys.len()
        invariant
            i <= keys@.len(),
            keys@.len() == reads@.len(),
            kv == keys.deep_view(),
            distinct_keys(r@.map_values(|p: (String, String)| text_pair_view(p))),
            keyed_map(r@.map_values(|p: (String, String)| text_pair_view(p))) == found_values(
                kv.take(i as int),
                reads@.take(i as int),
            ),
        decreases keys.len() - i,
    {
        let ghost ps = r@.map_values(|p: (String, String)| text_pair_view(p));
        proof {
            assert(kv.take(i + 1).drop_last() =~= kv.take(i as int));
            assert(reads@.take(i + 1).drop_last() =~= reads@.take(i as int));
            assert(kv.take(i + 1).last() == keys@[i as int]@);
            assert(reads@.take(i + 1).last() == reads@[i as int]);
        }
        match &reads[i] {
            Ok(v) => {
                let key = &keys[i];
                let mut j: usize = 0;
                while j < r.len() && !str_eq(r[j].0.as_str(), key.as_str())
                    invariant
                        j <= r@.len(),
                        ps == r@.map_values(|p: (String, String)| text_pair_view(p)),
                        forall|m: int| 0 <= m < j ==> #[trigger] ps[m].0 != key@,
                    decreases r.len() - j,
                {
                    assert(ps[j as int].0 == r@[j as int].0@);
                    j = j + 1;
                }
                let found = j < r.len();
                if found {
                    proof {
                        assert(ps[j as int].0 == r@[j as int].0@);
                        assert(ps[j as int].0 == key@);
                        lemma_keyed_update(ps, j as int, v@);
                    }
                    let k2 = r[j].0.clone();
                    r.set(j, (k2, v.clone()));
                    proof {
                        assert(r@.map_values(|p: (String, String)| text_pair_view(p)) =~= ps.update(
                            j as int,
                            (ps[j as int].0, v@),
                        ));
                    }
                } else {
                    proof {
                        assert(!has_key(ps, key@));
                        lemma_keyed_push(ps, key@, v@);
                    }
                    r.push((key.clone(), v.clone()));
                    proof {
                        assert(r@.map_values(|p: (String, String)| text_pair_view(p)) =~= ps.push((key@, v@)));
                    }
                }
            },
            Err(_) => {},
        }
        i = i + 1;
    }
    assert(kv.take(keys@.len() as int) =~= kv);
    assert(reads@.take(keys@.len() as int) =~= reads@);
    r
}

/// What reading a setting to copy it elsewhere gives: the value; nothing
/// where no extension knows the option; any other error stays an error.
pub fn config_read_outcome(read: Result<String, EngineError>) -> (r: Result<Option<String>, EngineError>)
    ensures
        match read {
            Ok(v) => r matches Ok(Some(w)) && w@ == v@,
            Err(e) => match e@ {
                EngineErrorView::UnsupportedOption(_) => r matches Ok(None),
                _ => r matches Err(f) && f == e,
            },
        },
{
    match read {
        Ok(v) => Ok(Some(v)),
        Err(EngineError::UnsupportedOption(_)) => Ok(None),
        Err(e) => Err(e),
    }
}

/// An extension of the engine: options that it answers for, by key and
/// value, and calls that it serves under `/name/`.
pub trait EngineExtension {
    /// The extension's name.
    fn name(&self) -> String;

    /// Sets the option `key` to `value` and gives the value it had; an
    /// extension that does not know the option answers `UnsupportedOption`.
    fn set(&mut self, key: &str, value: &str) -> Result<String, EngineError>;

    /// The value of the option `key`.
    fn get(&self, key: &str) -> Result<String, EngineError>;

    /// The options of the extension, with their values.
    fn options(&self) -> Vec<EngineExtensionOption>;

    /// Serves a call to `path`, the part after `/name/`; an extension that
    /// serves no calls answers `UnsupportedCall`.
    fn call(&self, _path: &str, _params: &Vec<(String, String)>, _body: &[u8]) -> (r: Result<Vec<u8>, EngineError>)
        default_ensures
            r matches Err(e) && e@ == EngineErrorView::UnsupportedCall,
    {
        Err(EngineError::UnsupportedCall)
    }
}

/// The names of the entries follow the order of `str`, so each occurs once.
pub open spec fn names_ordered<E>(entries: Seq<(Seq<char>, E)>) -> bool {
    forall|i: int, j: int|
        0 <= i < j < entries.len() ==> text_lt(#[trigger] entries[i].0, #[trigger] entries[j].0)
}

proof fn lemma_ordered_distinct<E>(entries: Seq<(Seq<char>, E)>)
    requires
        names_ordered(entries),
    ensures
        distinct_keys(entries),
{
    assert forall|a: int, b: int| 0 <= a < entries.len() && 0 <= b < entries.len() && a != b implies entries[a].0
        != entries[b].0 by {
        lemma_text_lt_irreflexive(entries[a].0);
        lemma_text_lt_irreflexive(entries[b].0);
    }
}

/// An extension with its name.
pub open spec fn named_view<E>(p: (String, E)) -> (Seq<char>, E) {
    (p.0@, p.1)
}

/// An answer that passes a setting on to the next extension.
pub open spec fn passes_set<T>(answer: Result<T, EngineError>) -> bool {
    answer matches Err(e) && e@ is UnsupportedOption
}

/// How routing a setting ends, given the answers of the extensions asked, in
/// name order, out of `n`: every answer but the last passed it on; the last
/// one decides, or, where all of the `n` passed it on, the option is unknown.
pub open spec fn settle_set(answers: Seq<Result<String, EngineError>>, n: nat, key: Seq<char>, r: Result<
    (),
    EngineError,
>) -> bool {
    &&& answers.len() <= n
    &&& forall|i: int| 0 <= i < answers.len() - 1 ==> passes_set(#[trigger] answers[i])
    &&& if answers.len() > 0 && !passes_set(answers.last()) {
        match answers.last() {
            Ok(_) => r is Ok,
            Err(e) => r == Err::<(), EngineError>(e),
        }
    } else {
        answers.len() == n && (r matches Err(e) && e@ == EngineErrorView::UnsupportedOption(key))
    }
}

/// The answers are those of `set(key, value)` called on the extensions
/// `exts` in order, through `refs`, the first of them.
pub open spec fn set_calls<E: EngineExtension>(
    exts: Seq<E>,
    refs: Seq<&mut E>,
    key: &str,
    value: &str,
    answers: Seq<Result<String, EngineError>>,
) -> bool {
    &&& refs.len() == answers.len()
    &&& answers.len() <= exts.len()
    &&& forall|j: int|
        #![trigger refs[j]]
        0 <= j < answers.len() ==> mut_ref_current(refs[j]) == exts[j] && call_ensures(
            E::set,
            (refs[j], key, value),
            answers[j],
        )
}

/// How reading a setting ends, given the answers of the extensions asked, in
/// name order, out of `n`: the first value given, or, where all of the `n`
/// failed, the option is unknown.
pub open spec fn settle_get(answers: Seq<Result<String, EngineError>>, n: nat, key: Seq<char>, r: Result<
    String,
    EngineError,
>) -> bool {
    &&& answers.len() <= n
    &&& forall|i: int| 0 <= i < answers.len() - 1 ==> (#[trigger] answers[i]) is Err
    &&& if answers.len() > 0 && answers.last() is Ok {
        r == answers.last()
    } else {
        answers.len() == n && (r matches Err(e) && e@ == EngineErrorView::UnsupportedOption(key))
    }
}

/// An extension passes a call on: it was not for it, or it serves no calls.
pub open spec fn passes_call(answer: Option<Result<Vec<u8>, EngineError>>) -> bool {
    match answer {
        None => true,
        Some(Ok(_)) => false,
        Some(Err(e)) => e@ is UnsupportedCall,
    }
}

/// The answer of an extension to a call, where it was asked.
pub open spec fn call_answer(c: Option<(&str, Result<Vec<u8>, EngineError>)>) -> Option<Result<Vec<u8>, EngineError>> {
    match c {
        Some(x) => Some(x.1),
        None => None,
    }
}

/// How routing a call to `path` ends, given, for the extensions `exts`
/// looked at in name order, each one's answer to `name` and, where the call
/// was for it, the rest of the path it was handed and its answer: every
/// extension but the last passed the call on; the last one decides, or,
/// where all passed it on, the call is not routed.
pub open spec fn settle_call<E: EngineExtension>(
    exts: Seq<E>,
    log: Seq<(String, Option<(&str, Result<Vec<u8>, EngineError>)>)>,
    path: &str,
    params: &Vec<(String, String)>,
    body: &[u8],
    r: Result<Vec<u8>, EngineError>,
) -> bool {
    &&& log.len() <= exts.len()
    &&& forall|i: int| 0 <= i < log.len() ==> call_ensures(E::name, (&exts[i],), (#[trigger] log[i]).0)
    &&& forall|i: int|
        0 <= i < log.len() ==> match (#[trigger] log[i]).1 {
            None => routed_path(path@, log[i].0@) is None,
            Some(c) => routed_path(path@, log[i].0@) == Some(c.0@) && call_ensures(E::call, (&exts[i], c.0, params, body), c.1),
        }
    &&& forall|i: int| 0 <= i < log.len() - 1 ==> passes_call(call_answer((#[trigger] log[i]).1))
    &&& if log.len() > 0 && !passes_call(call_answer(log.last().1)) {
        r == call_answer(log.last().1)->0
    } else {
        log.len() == exts.len() && (r matches Err(e) && e@ == EngineErrorView::CallError(path@))
    }
}

/// The options lists, one after the other.
pub open spec fn concat_options(lists: Seq<Vec<EngineExtensionOption>>) -> Seq<EngineExtensionOption>
    decreases lists.len(),
{
    if lists.len() == 0 {
        Seq::empty()
    } else {
        concat_options(lists.drop_last()) + lists.last()@
    }
}

/// The extensions of the engine by name. Settings and calls are offered to
/// them in name order, until one takes them.
pub struct EngineExtensionManager<E> {
    extensions: Vec<(String, E)>,
}

impl<E> EngineExtensionManager<E> {
    /// The extensions with their names, in name order.
    pub closed spec fn entries(&self) -> Seq<(Seq<char>, E)> {
        self.extensions@.map_values(|p: (String, E)| named_view(p))
    }

    /// The extensions by name.
    pub open spec fn by_name(&self) -> Map<Seq<char>, E> {
        keyed_map(self.entries())
    }

    /// The extensions, in name order.
    pub open spec fn exts(&self) -> Seq<E> {
        self.entries().map_values(|p: (Seq<char>, E)| p.1)
    }

    /// The names, in order.
    pub open spec fn names(&self) -> Seq<Seq<char>> {
        self.entries().map_values(|p: (Seq<char>, E)| p.0)
    }

    /// The names are in order, each once.
    #[verifier::type_invariant]
    closed spec fn wf(self) -> bool {
        names_ordered(self.extensions@.map_values(|p: (String, E)| named_view(p)))
    }

    /// A manager without extensions.
    pub fn new() -> (r: Self)
        ensures
            r.entries().len() == 0,
            r.by_name() == Map::<Seq<char>, E>::empty(),
    {
        let r = EngineExtensionManager { extensions: Vec::new() };
        assert(r.entries() =~= Seq::<(Seq<char>, E)>::empty());
        assert(r.by_name() =~= Map::<Seq<char>, E>::empty());
        r
    }

    /// Registers `extension` under `name`, in name order, replacing the one
    /// registered under that name before.
    fn insert_named(&mut self, name: String, extension: E)
        ensures
            final(self).by_name() == old(self).by_name().insert(name@, extension),
            names_ordered(final(self).entries()),
    {
        proof {
            use_type_invariant(&*self);
            lemma_ordered_distinct(self.entries());
        }
        let ghost es = self.entries();
        let ghost k = name@;
        let ghost ext = extension;
        let mut p: usize = 0;
        while p < self.extensions.len() && text_less(self.extensions[p].0.as_str(), name.as_str())
            invariant
                p <= self.extensions@.len(),
                es == self.entries(),
                k == name@,
                forall|i: int| 0 <= i < p ==> text_lt(#[trigger] es[i].0, k),
            decreases self.extensions.len() - p,
        {
            assert(es[p as int].0 == self.extensions@[p as int].0@);
            p = p + 1;
        }
        let mut v: Vec<(String, E)> = Vec::new();
        std::mem::swap(&mut v, &mut self.extensions);
        assert(v@.map_values(|q: (String, E)| named_view(q)) == es);
        let same = p < v.len() && str_eq(v[p].0.as_str(), name.as_str());
        if same {
            proof {
                assert(es[p as int].0 == k);
                lemma_keyed_update(es, p as int, ext);
            }
            v.set(p, (name, extension));
            proof {
                let f = v@.map_values(|q: (String, E)| named_view(q));
                assert(f =~= es.update(p as int, (es[p as int].0, ext)));
                assert forall|i: int, j: int| 0 <= i < j < f.len() implies text_lt(#[trigger] f[i].0, #[trigger] f[j].0) by {
                    assert(f[i].0 == es[i].0 && f[j].0 == es[j].0);
                }
            }
        } else {
            proof {
                if p < es.len() {
                    assert(es[p as int].0 == v@[p as int].0@);
                    assert(!text_lt(es[p as int].0, k));
                    assert(es[p as int].0 != k);
                    lemma_text_lt_total(es[p as int].0, k);
                    assert(text_lt(k, es[p as int].0));
                }
                assert forall|i: int| p <= i < es.len() implies text_lt(k, #[trigger] es[i].0) by {
                    if i > p {
                        lemma_text_lt_transitive(k, es[p as int].0, es[i].0);
                    }
                }
                assert(!has_key(es, k)) by {
                    if has_key(es, k) {
                        let i = choose|i: int| 0 <= i < es.len() && es[i].0 == k;
                        lemma_text_lt_irreflexive(k);
                        if i < p {
                            assert(text_lt(es[i].0, k));
                        } else {
                            assert(text_lt(k, es[i].0));
                        }
                    }
                }
                lemma_keyed_insert(es, p as int, k, ext);
            }
            v.insert(p, (name, extension));
            proof {
                let f = v@.map_values(|q: (String, E)| named_view(q));
                assert(f =~= es.insert(p as int, (k, ext)));
                assert forall|i: int, j: int| 0 <= i < j < f.len() implies text_lt(#[trigger] f[i].0, #[trigger] f[j].0) by {
                    if j < p {
                        assert(f[i].0 == es[i].0 && f[j].0 == es[j].0);
                    } else if j == p {
                        assert(f[i].0 == es[i].0);
                    } else if i == p {
                        assert(f[j].0 == es[j - 1].0);
                    } else if i < p {
                        assert(f[i].0 == es[i].0 && f[j].0 == es[j - 1].0);
                    } else {
                        assert(f[i].0 == es[i - 1].0 && f[j].0 == es[j - 1].0);
                    }
                }
            }
        }
        self.extensions = v;
    }
}

impl<E: EngineExtension> EngineExtensionManager<E> {
    /// Registers `extension` under its name, replacing the one registered
    /// under that name before.
    pub fn register(&mut self, extension: E)
        ensures
            exists|name: String|
                call_ensures(E::name, (&extension,), name) && final(self).by_name() == old(self).by_name().insert(
                    name@,
                    extension,
                ),
            names_ordered(final(self).entries()),
    {
        let name = extension.name();
        let ghost g = name;
        self.insert_named(name, extension);
        assert(call_ensures(E::name, (&extension,), g) && self.by_name() == old(self).by_name().insert(g@, extension));
    }

    /// Offers the setting to the extension at position `i`.
    fn set_at(&mut self, i: usize, key: &str, value: &str) -> (r: Result<String, EngineError>)
        requires
            i < old(self).entries().len(),
        ensures
            final(self).names() == old(self).names(),
            final(self).exts().len() == old(self).exts().len(),
            forall|j: int| 0 <= j < old(self).exts().len() && j != i ==> final(self).exts()[j] == old(self).exts()[j],
            exists|m: &mut E|
                mut_ref_current(m) == old(self).exts()[i as int] && mut_ref_future(m) == final(self).exts()[i as int]
                    && #[trigger] call_ensures(E::set, (m, key, value), r),
    {
        proof {
            use_type_invariant(&*self);
        }
        let ghost es = self.entries();
        let mut v: Vec<(String, E)> = Vec::new();
        std::mem::swap(&mut v, &mut self.extensions);
        assert(v@.map_values(|q: (String, E)| named_view(q)) == es);
        let (name, mut ext) = v.remove(i);
        let r = ext.set(key, value);
        let ghost e2 = ext;
        v.insert(i, (name, ext));
        proof {
            let f = v@.map_values(|q: (String, E)| named_view(q));
            assert(f =~= es.update(i as int, (es[i as int].0, e2)));
            assert forall|a: int, b: int| 0 <= a < b < f.len() implies text_lt(#[trigger] f[a].0, #[trigger] f[b].0) by {
                assert(f[a].0 == es[a].0 && f[b].0 == es[b].0);
            }
        }
        self.extensions = v;
        proof {
            assert(self.names() =~= old(self).names());
            assert(self.exts() =~= old(self).exts().update(i as int, e2));
        }
        r
    }

    /// Sets the option `key` to `value` through the first extension, in name
    /// order, that knows it; an error that is not `UnsupportedOption` stops
    /// the routing. Each extension asked is left as its `set` left it; the
    /// others are untouched.
    #[verifier::spinoff_prover]
    #[verifier::rlimit(40)]
    pub fn set_option(&mut self, key: &str, value: &str) -> (r: Result<(), EngineError>)
        ensures
            final(self).names() == old(self).names(),
            exists|answers: Seq<Result<String, EngineError>>, refs: Seq<&mut E>|
                #![trigger settle_set(answers, old(self).entries().len() as nat, key@, r), set_calls(old(self).exts(), refs, key, value, answers)]
                settle_set(answers, old(self).entries().len() as nat, key@, r) && set_calls(
                    old(self).exts(),
                    refs,
                    key,
                    value,
                    answers,
                ) && (forall|j: int|
                    0 <= j < answers.len() ==> mut_ref_future(#[trigger] refs[j]) == final(self).exts()[j])
                    && forall|j: int|
                    answers.len() <= j < old(self).exts().len() ==> #[trigger] final(self).exts()[j] == old(
                        self,
                    ).exts()[j],
    {
        let ghost mut answers: Seq<Result<String, EngineError>> = Seq::empty();
        let ghost n0 = old(self).entries().len() as nat;
        let mut i: usize = 0;
        while i < self.extensions.len()
            invariant
                self.names() == old(self).names(),
                self.extensions@.len() == n0,
                self.names().len() == n0,
                i <= n0,
                answers.len() == i,
                self.exts().len() == n0,
                old(self).exts().len() == n0,
                forall|j: int|
                    #![trigger answers[j]]
                    0 <= j < i ==> passes_set(answers[j]) && exists|m: &mut E|
                        #![trigger call_ensures(E::set, (m, key, value), answers[j])]
                        mut_ref_current(m) == old(self).exts()[j] && mut_ref_future(m) == self.exts()[j]
                            && call_ensures(E::set, (m, key, value), answers[j]),
                forall|j: int| i <= j < n0 ==> #[trigger] self.exts()[j] == old(self).exts()[j],
            decreases self.extensions.len() - i,
        {
            proof {
                assert(self.entries().len() == self.names().len());
            }
            let ghost before = *self;
            let ans = self.set_at(i, key, value);
            proof {
                let ghost a0 = answers;
                answers = answers.push(ans);
                assert forall|j: int|
                    #![trigger answers[j]]
                    0 <= j < answers.len() implies exists|m: &mut E|
                    #![trigger call_ensures(E::set, (m, key, value), answers[j])]
                    mut_ref_current(m) == old(self).exts()[j] && mut_ref_future(m) == self.exts()[j]
                        && call_ensures(E::set, (m, key, value), answers[j]) by {
                    if j < i {
                        assert(answers[j] == a0[j]);
                        assert(self.exts()[j] == before.exts()[j]);
                    } else {
                        assert(answers[j] == ans);
                        assert(before.exts()[j] == old(self).exts()[j]);
                    }
                }
                assert forall|j: int| i + 1 <= j < n0 implies #[trigger] self.exts()[j] == old(self).exts()[j] by {
                    assert(self.exts()[j] == before.exts()[j]);
                }
            }
            let settled = match after_set(ans) {
                SetStep::Done => Some(Ok(())),
                SetStep::Next => None,
                SetStep::Fail(e) => Some(Err(e)),
            };
            if let Some(res) = settled {
                assert(settle_set(answers, n0, key@, res));
                proof {
                    let refs = Seq::new(
                        answers.len(),
                        |j: int|
                            choose|m: &mut E|
                                mut_ref_current(m) == old(self).exts()[j] && mut_ref_future(m) == self.exts()[j]
                                    && #[trigger] call_ensures(E::set, (m, key, value), answers[j]),
                    );
                    assert forall|j: int| 0 <= j < answers.len() implies mut_ref_current(#[trigger] refs[j])
                        == old(self).exts()[j] && call_ensures(E::set, (refs[j], key, value), answers[j])
                        && mut_ref_future(refs[j]) == self.exts()[j] by {
                        assert(exists|m: &mut E|
                            mut_ref_current(m) == old(self).exts()[j] && mut_ref_future(m) == self.exts()[j]
                                && #[trigger] call_ensures(E::set, (m, key, value), answers[j]));
                    }
                    assert(set_calls(old(self).exts(), refs, key, value, answers));
                }
                return res;
            }
            i = i + 1;
        }
        let res = Err(unsupported_option(key));
        proof {
            assert(self.entries().len() == self.names().len());
            if answers.len() > 0 {
                assert(passes_set(answers[answers.len() - 1]));
            }
            assert(settle_set(answers, n0, key@, res));
        }
        proof {
            let refs = Seq::new(
                answers.len(),
                |j: int|
                    choose|m: &mut E|
                        mut_ref_current(m) == old(self).exts()[j] && mut_ref_future(m) == self.exts()[j]
                            && #[trigger] call_ensures(E::set, (m, key, value), answers[j]),
            );
            assert forall|j: int| 0 <= j < answers.len() implies mut_ref_current(#[trigger] refs[j])
                == old(self).exts()[j] && call_ensures(E::set, (refs[j], key, value), answers[j])
                && mut_ref_future(refs[j]) == self.exts()[j] by {
                assert(exists|m: &mut E|
                    mut_ref_current(m) == old(self).exts()[j] && mut_ref_future(m) == self.exts()[j]
                        && #[trigger] call_ensures(E::set, (m, key, value), answers[j]));
            }
            assert(set_calls(old(self).exts(), refs, key, value, answers));
        }
        res
    }

    /// The value of the option `key` from the first extension, in name order,
    /// that gives one.
    pub fn get_option(&self, key: &str) -> (r: Result<String, EngineError>)
        ensures
            exists|answers: Seq<Result<String, EngineError>>|
                settle_get(answers, self.entries().len() as nat, key@, r) && forall|j: int|
                    0 <= j < answers.len() ==> call_ensures(E::get, (&self.entries()[j].1, key), #[trigger] answers[j]),
    {
        let ghost mut answers: Seq<Result<String, EngineError>> = Seq::empty();
        let ghost n0 = self.entries().len() as nat;
        let mut i: usize = 0;
        while i < self.extensions.len()
            invariant
                self.extensions@.len() == n0,
                i <= n0,
                answers.len() == i,
                forall|j: int| 0 <= j < i ==> (#[trigger] answers[j]) is Err,
                forall|j: int| 0 <= j < i ==> call_ensures(E::get, (&self.entries()[j].1, key), #[trigger] answers[j]),
            decreases self.extensions.len() - i,
        {
            let ans = self.extensions[i].1.get(key);
            proof {
                assert(self.entries()[i as int].1 == self.extensions@[i as int].1);
                answers = answers.push(ans);
                assert(answers[i as int] == ans);
            }
            if ans.is_ok() {
                assert(settle_get(answers, n0, key@, ans));
                assert(n0 == self.entries().len() as nat);
                return ans;
            }
            i = i + 1;
        }
        let e = unsupported_option(key);
        proof {
            if answers.len() > 0 {
                assert(answers[answers.len() - 1] is Err);
            }
            assert(settle_get(answers, n0, key@, Err(e)));
        }
        Err(e)
    }

    /// The options of all extensions, extension by extension in name order.
    pub fn options(&self) -> (r: Vec<EngineExtensionOption>)
        ensures
            exists|lists: Seq<Vec<EngineExtensionOption>>|
                #![trigger concat_options(lists)]
                lists.len() == self.entries().len() && (forall|i: int|
                    0 <= i < lists.len() ==> call_ensures(E::options, (&self.exts()[i],), #[trigger] lists[i]))
                    && r@ == concat_options(lists),
    {
        let ghost mut lists: Seq<Vec<EngineExtensionOption>> = Seq::empty();
        let mut r: Vec<EngineExtensionOption> = Vec::new();
        let mut i: usize = 0;
        assert(r@ =~= concat_options(lists));
        while i < self.extensions.len()
            invariant
                i <= self.extensions@.len(),
                lists.len() == i,
                self.exts().len() == self.extensions@.len(),
                forall|j: int| 0 <= j < i ==> call_ensures(E::options, (&self.exts()[j],), #[trigger] lists[j]),
                r@ == concat_options(lists),
            decreases self.extensions.len() - i,
        {
            let mut o = self.extensions[i].1.options();
            let ghost before_lists = lists;
            let ghost ov = o;
            proof {
                assert(self.exts()[i as int] == self.extensions@[i as int].1);
                lists = lists.push(ov);
                assert(lists[i as int] == ov);
            }
            let ghost prev = r@;
            r.append(&mut o);
            proof {
                assert(lists.drop_last() =~= before_lists);
                assert(lists.last() == ov);
                assert(r@ =~= prev + ov@);
            }
            i = i + 1;
        }
        assert(self.entries().len() == self.extensions@.len());
        r
    }

    /// Routes a call to `path` to the first extension, in name order, whose
    /// name heads the path (`/name/...`) and that serves it; it gets the rest
    /// of the path. An error that is not `UnsupportedCall` stops the routing.
    pub fn call(&self, path: &str, params: &Vec<(String, String)>, body: &[u8]) -> (r: Result<Vec<u8>, EngineError>)
        ensures
            exists|log: Seq<(String, Option<(&str, Result<Vec<u8>, EngineError>)>)>|
                #[trigger] settle_call(self.exts(), log, path, params, body, r),
    {
        let ghost mut log: Seq<(String, Option<(&str, Result<Vec<u8>, EngineError>)>)> = Seq::empty();
        let ghost exts = self.exts();
        let mut i: usize = 0;
        while i < self.extensions.len()
            invariant
                exts == self.exts(),
                exts.len() == self.extensions@.len(),
                forall|j: int| 0 <= j < exts.len() ==> exts[j] == self.extensions@[j].1,
                i <= exts.len(),
                log.len() == i,
                forall|j: int| 0 <= j < i ==> call_ensures(E::name, (&exts[j],), (#[trigger] log[j]).0),
                forall|j: int|
                    0 <= j < i ==> match (#[trigger] log[j]).1 {
                        None => routed_path(path@, log[j].0@) is None,
                        Some(c) => routed_path(path@, log[j].0@) == Some(c.0@) && call_ensures(
                            E::call,
                            (&exts[j], c.0, params, body),
                            c.1,
                        ),
                    },
                forall|j: int| 0 <= j < i ==> passes_call(call_answer((#[trigger] log[j]).1)),
            decreases self.extensions.len() - i,
        {
            let name = self.extensions[i].1.name();
            match route_call(path, name.as_str()) {
                None => {
                    proof {
                        log = log.push((name, None));
                        assert(log[i as int].1 is None);
                    }
                },
                Some(inner) => {
                    let p = inner.as_str();
                    let ans = self.extensions[i].1.call(p, params, body);
                    proof {
                        log = log.push((name, Some((p, ans))));
                        assert(log[i as int].1 == Some((p, ans)));
                    }
                    match after_call(ans) {
                        Some(res) => {
                            assert(settle_call(exts, log, path, params, body, res));
                            return res;
                        },
                        None => {},
                    }
                },
            }
            i = i + 1;
        }
        let e = unrouted_call(path);
        proof {
            if log.len() > 0 {
                assert(passes_call(call_answer(log[log.len() - 1].1)));
            }
            assert(settle_call(exts, log, path, params, body, Err(e)));
        }
        Err(e)
    }
}

} // verus!
