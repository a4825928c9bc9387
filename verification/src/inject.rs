//! Loading the probe into a running process: where the C library's functions
//! lie in the target, the environment settings handed to it, the code that is
//! run in it, and the order of the steps.
use vstd::prelude::*;

use crate::text::to_owned_string;

verus! {

/// Where the C library functions that the injection calls lie in a process.
#[derive(Debug, Clone, Copy, PartialEq, Eq, Structural)]
pub struct LibcAddrs {
    /// `dlopen` comes from the separate dynamic-loading library.
    pub use_libdl: bool,
    pub malloc: u64,
    pub dlopen: u64,
    pub free: u64,
    pub putenv: u64,
    pub setenv: u64,
    pub getenv: u64,
    pub printf: u64,
}

/// `addr`, which lies in a library loaded at `old_base`, moved to the same
/// place in a copy of the library loaded at `new_base`.
pub open spec fn rebased(addr: u64, old_base: u64, new_base: u64) -> int {
    addr - old_base + new_base
}

/// Whether `addr` lies at or above `old_base` and, moved to `new_base`,
/// stays within 64 bits.
pub fn moves_within(addr: u64, old_base: u64, new_base: u64) -> (r: bool)
    ensures
        r == (addr >= old_base && 0 <= rebased(addr, old_base, new_base) <= u64::MAX),
{
    addr >= old_base && addr - old_base <= u64::MAX - new_base
}

/// Every address lies at or above the base it is measured from, and moves
/// within the 64-bit range.
pub open spec fn rebase_fits(a: LibcAddrs, old_base: u64, new_base: u64, old_dl: Option<u64>, new_dl: Option<u64>) -> bool {
    let fits = |x: u64| x >= old_base && 0 <= rebased(x, old_base, new_base) <= u64::MAX;
    &&& fits(a.malloc)
    &&& fits(a.free)
    &&& fits(a.putenv)
    &&& fits(a.setenv)
    &&& fits(a.getenv)
    &&& fits(a.printf)
    &&& match (old_dl, new_dl) {
        (Some(o), Some(n)) if a.use_libdl => a.dlopen >= o && 0 <= rebased(a.dlopen, o, n) <= u64::MAX,
        _ => fits(a.dlopen),
    }
}

/// Where `dlopen` came from: the C library itself, under one of its two
/// names, or the separate dynamic-loading library.
pub open spec fn dlopen_choice(libc_internal: Option<u64>, libc_public: Option<u64>, libdl: Option<u64>) -> Option<(u64, bool)> {
    match libc_internal {
        Some(a) => Some((a, false)),
        None => match libc_public {
            Some(a) => Some((a, false)),
            None => match libdl {
                Some(a) => Some((a, true)),
                None => None,
            },
        },
    }
}

impl LibcAddrs {
    /// The addresses found by looking the functions up in this process:
    /// `dlopen` under its internal name `___dlopen` in the C library, else
    /// under `dlopen` there, else in the dynamic-loading library. Nothing
    /// where a function was not found.
    pub fn from_lookups(
        dlopen_internal: Option<u64>,
        dlopen_public: Option<u64>,
        dlopen_libdl: Option<u64>,
        malloc: Option<u64>,
        free: Option<u64>,
        putenv: Option<u64>,
        setenv: Option<u64>,
        getenv: Option<u64>,
        printf: Option<u64>,
    ) -> (r: Option<LibcAddrs>)
        ensures
            match r {
                Some(a) => dlopen_choice(dlopen_internal, dlopen_public, dlopen_libdl) == Some((a.dlopen, a.use_libdl))
                    && malloc == Some(a.malloc) && free == Some(a.free) && putenv == Some(a.putenv) && setenv
                    == Some(a.setenv) && getenv == Some(a.getenv) && printf == Some(a.printf),
                None => dlopen_choice(dlopen_internal, dlopen_public, dlopen_libdl) is None || malloc is None
                    || free is None || putenv is None || setenv is None || getenv is None || printf is None,
            },
    {
        let (dlopen, use_libdl) = match dlopen_internal {
            Some(a) => (a, false),
            None => match dlopen_public {
                Some(a) => (a, false),
                None => match dlopen_libdl {
                    Some(a) => (a, true),
                    None => {
                        return None;
                    },
                },
            },
        };
        match (malloc, free, putenv, setenv, getenv, printf) {
            (Some(malloc), Some(free), Some(putenv), Some(setenv), Some(getenv), Some(printf)) => Some(
                LibcAddrs { use_libdl, malloc, dlopen, free, putenv, setenv, getenv, printf },
            ),
            _ => None,
        }
    }

    /// The addresses of the same functions in a process whose C library is
    /// loaded at `new_base`, given that this process has it at `old_base`.
    /// `dlopen` moves with the dynamic-loading library where it came from
    /// there and both its bases are known, else with the C library.
    pub fn change_base(&self, old_base: u64, new_base: u64, old_dl: Option<u64>, new_dl: Option<u64>) -> (r: LibcAddrs)
        requires
            rebase_fits(*self, old_base, new_base, old_dl, new_dl),
        ensures
            r.use_libdl == self.use_libdl,
            r.malloc == rebased(self.malloc, old_base, new_base),
            r.free == rebased(self.free, old_base, new_base),
            r.putenv == rebased(self.putenv, old_base, new_base),
            r.setenv == rebased(self.setenv, old_base, new_base),
            r.getenv == rebased(self.getenv, old_base, new_base),
            r.printf == rebased(self.printf, old_base, new_base),
            r.dlopen == match (old_dl, new_dl) {
                (Some(o), Some(n)) if self.use_libdl => rebased(self.dlopen, o, n),
                _ => rebased(self.dlopen, old_base, new_base),
            },
    {
        let dlopen = match (old_dl, new_dl) {
            (Some(old), Some(new)) if self.use_libdl => self.dlopen - old + new,
            _ => self.dlopen - old_base + new_base,
        };
        LibcAddrs {
            use_libdl: self.use_libdl,
            malloc: self.malloc - old_base + new_base,
            dlopen,
            free: self.free - old_base + new_base,
            putenv: self.putenv - old_base + new_base,
            setenv: self.setenv - old_base + new_base,
            getenv: self.getenv - old_base + new_base,
            printf: self.printf - old_base + new_base,
        }
    }

    /// The addresses moved as `change_base` moves them, where every one of
    /// them fits (see `rebase_fits`); nothing where one would not.
    pub fn try_change_base(&self, old_base: u64, new_base: u64, old_dl: Option<u64>, new_dl: Option<u64>) -> (r:
        Option<LibcAddrs>)
        ensures
            r is Some <==> rebase_fits(*self, old_base, new_base, old_dl, new_dl),
            r matches Some(m) ==> {
                &&& m.use_libdl == self.use_libdl
                &&& m.malloc == rebased(self.malloc, old_base, new_base)
                &&& m.free == rebased(self.free, old_base, new_base)
                &&& m.putenv == rebased(self.putenv, old_base, new_base)
                &&& m.setenv == rebased(self.setenv, old_base, new_base)
                &&& m.getenv == rebased(self.getenv, old_base, new_base)
                &&& m.printf == rebased(self.printf, old_base, new_base)
                &&& m.dlopen == match (old_dl, new_dl) {
                    (Some(o), Some(n)) if self.use_libdl => rebased(self.dlopen, o, n),
                    _ => rebased(self.dlopen, old_base, new_base),
                }
            },
    {
        let dl_fits = match (old_dl, new_dl) {
            (Some(o), Some(n)) if self.use_libdl => moves_within(self.dlopen, o, n),
            _ => moves_within(self.dlopen, old_base, new_base),
        };
        if dl_fits && moves_within(self.malloc, old_base, new_base) && moves_within(self.free, old_base, new_base)
            && moves_within(self.putenv, old_base, new_base) && moves_within(self.setenv, old_base, new_base)
            && moves_within(self.getenv, old_base, new_base) && moves_within(self.printf, old_base, new_base) {
            Some(self.change_base(old_base, new_base, old_dl, new_dl))
        } else {
            None
        }
    }
}

/// Moving addresses to a library loaded at another base and back gives them
/// back.
pub proof fn law_change_base_round_trip(a: LibcAddrs, old_base: u64, new_base: u64)
    requires
        rebase_fits(a, old_base, new_base, None, None),
    ensures
        ({
            let moved = LibcAddrs {
                use_libdl: a.use_libdl,
                malloc: rebased(a.malloc, old_base, new_base) as u64,
                dlopen: rebased(a.dlopen, old_base, new_base) as u64,
                free: rebased(a.free, old_base, new_base) as u64,
                putenv: rebased(a.putenv, old_base, new_base) as u64,
                setenv: rebased(a.setenv, old_base, new_base) as u64,
                getenv: rebased(a.getenv, old_base, new_base) as u64,
                printf: rebased(a.printf, old_base, new_base) as u64,
            };
            rebase_fits(moved, new_base, old_base, None, None) && rebased(moved.malloc, new_base, old_base)
                == a.malloc && rebased(moved.dlopen, new_base, old_base) == a.dlopen && rebased(
                moved.free,
                new_base,
                old_base,
            ) == a.free && rebased(moved.printf, new_base, old_base) == a.printf
        }),
{
}

/// The code run in an arm64 target: two no-ops, a call through `x8`, then a
/// breakpoint that hands control back.
pub const SHELLCODE_AARCH64: [u8; 16] = [
    0x1f, 0x20, 0x03, 0xd5,
    0x1f, 0x20, 0x03, 0xd5,
    0x00, 0x01, 0x3f, 0xd6,
    0x00, 0x00, 0x20, 0xd4,
];

/// The stack pointer rounded down to a multiple of 16, as the arm64 calling
/// convention asks.
pub fn aligned_sp(sp: u64) -> (r: u64)
    ensures
        r == sp & !0xfu64,
        r % 16 == 0,
        r <= sp,
        sp - r < 16,
{
    let r = sp & !0xfu64;
    assert(r % 16 == 0 && r <= sp && sp - r < 16) by (bit_vector)
        requires
            r == sp & !0xfu64,
    ;
    r
}

/// `bytes` followed by a NUL byte, as C strings end.
pub fn nul_terminated(bytes: &[u8]) -> (r: Vec<u8>)
    ensures
        r@ == bytes@.push(0u8),
{
    let mut r: Vec<u8> = Vec::new();
    let mut i: usize = 0;
    while i < bytes.len()
        invariant
            i <= bytes@.len(),
            r@ == bytes@.take(i as int),
        decreases bytes.len() - i,
    {
        r.push(bytes[i]);
        assert(r@ =~= bytes@.take(i + 1));
        i = i + 1;
    }
    assert(bytes@.take(bytes@.len() as int) =~= bytes@);
    r.push(0u8);
    r
}

/// The signal number of a breakpoint trap.
pub const SIGTRAP: i32 = 5;

/// How a traced process stopped.
#[derive(Debug, Clone, Copy, PartialEq, Eq, Structural)]
pub enum Stop {
    /// A signal is about to be delivered.
    SignalDelivery(i32),
    /// The process group stopped on a signal.
    Group(i32),
    /// Any other stop.
    Other,
}

/// What waiting for the injected code's breakpoint does after a stop.
#[derive(Debug, Clone, Copy, PartialEq, Eq, Structural)]
pub enum TrapStep {
    /// The breakpoint was reached.
    Trapped,
    /// The code raised another signal: an error.
    Unexpected(i32),
    /// Let the process run on and wait again.
    Continue,
}

/// The step after the traced process stopped with `stop`.
pub fn trap_step(stop: Stop) -> (r: TrapStep)
    ensures
        r == match stop {
            Stop::SignalDelivery(s) => if s == SIGTRAP {
                TrapStep::Trapped
            } else {
                TrapStep::Unexpected(s)
            },
            Stop::Group(s) => TrapStep::Unexpected(s),
            Stop::Other => TrapStep::Continue,
        },
{
    match stop {
        Stop::SignalDelivery(s) => if s == SIGTRAP {
            TrapStep::Trapped
        } else {
            TrapStep::Unexpected(s)
        },
        Stop::Group(s) => TrapStep::Unexpected(s),
        Stop::Other => TrapStep::Continue,
    }
}

} // verus!

verus! {

/// The upper-case form that `str::to_uppercase` gives of a text.
pub uninterp spec fn upper_case(s: Seq<char>) -> Seq<char>;

/// The ASCII upper-case form of a character.
pub open spec fn ascii_upper(c: char) -> char {
    if 'a' <= c && c <= 'z' {
        ((c as u32) - 32) as char
    } else {
        c
    }
}

/// `str::to_uppercase`: the Unicode upper-case form of the text. For ASCII
/// text that is each letter made a capital, which the contract states; for
/// other text it is named, not stated.
#[verifier::external_body]
fn to_upper(s: &str) -> (r: String)
    ensures
        r@ == upper_case(s@),
        (forall|i: int| 0 <= i < s@.len() ==> (#[trigger] s@[i]) < '\u{80}') ==> r@ == s@.map_values(
            |c: char| ascii_upper(c),
        ),
{
    s.to_uppercase()
}

/// The position of the first `c` in `s`.
pub open spec fn first_index_of(s: Seq<char>, c: char) -> Option<int> {
    if exists|i: int| 0 <= i < s.len() && s[i] == c {
        Some(choose|i: int| 0 <= i < s.len() && s[i] == c && forall|j: int| 0 <= j < i ==> s[j] != c)
    } else {
        None
    }
}

/// The environment variable a setting `NAME=value` asks for: the name before
/// the first `=`, in upper case, and the value after it; nothing without `=`.
pub open spec fn env_assignment(s: Seq<char>) -> Option<(Seq<char>, Seq<char>)> {
    match first_index_of(s, '=') {
        Some(i) => Some((upper_case(s.take(i)), s.skip(i + 1))),
        None => None,
    }
}

/// The environment variable a setting asks for.
pub fn env_of_setting(s: &str) -> (r: Option<(String, String)>)
    ensures
        match r {
            Some(p) => env_assignment(s@) == Some((p.0@, p.1@)),
            None => env_assignment(s@) is None,
        },
{
    let n = s.unicode_len();
    let mut i: usize = 0;
    while i < n
        invariant
            n == s@.len(),
            i <= n,
            forall|j: int| 0 <= j < i ==> s@[j] != '=',
        decreases n - i,
    {
        if s.get_char(i) == '=' {
            let name = s.substring_char(0, i);
            let value = s.substring_char(i + 1, n);
            proof {
                assert(s@[i as int] == '=');
                let k = choose|k: int| 0 <= k < s@.len() && s@[k] == '=' && forall|j: int| 0 <= j < k ==> s@[j] != '=';
                assert(k == i as int) by {
                    if k < i {
                    } else if k > i {
                        assert(s@[i as int] != '=');
                    }
                }
                assert(name@ =~= s@.take(i as int));
                assert(value@ =~= s@.skip(i + 1));
            }
            return Some((to_upper(name), to_owned_string(value)));
        }
        i = i + 1;
    }
    None
}

/// A way of running code inside a traced process, for one kind of processor.
pub trait InjectionTrait: Sized {
    /// Loads the library at `filename` into the process.
    fn execute(&mut self, filename: &str) -> Result<(), String>;

    /// Sets an environment variable in the process, where both name and value are given.
    fn setenv(&mut self, name: Option<&str>, value: Option<&str>) -> Result<(), String>;

    /// Takes the injected code out and restores the process.
    fn remove(self) -> Result<(), String>;
}

/// An injection of any kind, used through one interface.
pub struct GenericInjection<T> {
    inner: T,
}

impl<T: InjectionTrait> GenericInjection<T> {
    /// The injection used through this interface.
    pub closed spec fn inner_spec(&self) -> T {
        self.inner
    }

    /// Wraps an injection.
    pub fn new(inner: T) -> (r: Self)
        ensures
            r.inner_spec() == inner,
    {
        GenericInjection { inner }
    }

    /// Loads the library at `filename` into the process; the answer, and
    /// the injection left, are those of the wrapped injection's `execute`.
    pub fn execute(&mut self, filename: &str) -> (r: Result<(), String>)
        ensures
            exists|m: &mut T|
                mut_ref_current(m) == old(self).inner_spec() && mut_ref_future(m) == final(self).inner_spec()
                    && #[trigger] call_ensures(T::execute, (m, filename), r),
    {
        self.inner.execute(filename)
    }

    /// Sets an environment variable in the process; the answer, and the
    /// injection left, are those of the wrapped injection's `setenv`.
    pub fn setenv(&mut self, name: Option<&str>, value: Option<&str>) -> (r: Result<(), String>)
        ensures
            exists|m: &mut T|
                mut_ref_current(m) == old(self).inner_spec() && mut_ref_future(m) == final(self).inner_spec()
                    && #[trigger] call_ensures(T::setenv, (m, name, value), r),
    {
        self.inner.setenv(name, value)
    }

    /// Takes the injected code out and restores the process; the answer is
    /// the one the wrapped injection gives.
    pub fn remove(self) -> (r: Result<(), String>)
        ensures
            call_ensures(T::remove, (self.inner_spec(),), r),
    {
        self.inner.remove()
    }
}

/// Which step of an injection failed, and what the injection reported.
#[derive(Debug, Clone)]
pub struct InjectionFailure {
    /// What was being done.
    pub context: String,
    /// What went wrong.
    pub cause: String,
}

/// The text of why a setting's environment variable could not be set.
pub open spec fn env_failure_context() -> Seq<char> {
    "failed to prepare env string"@
}

/// The text of why the library could not be loaded.
pub open spec fn execute_failure_context() -> Seq<char> {
    "failed to execute shellcode"@
}

/// The text of why the injected code could not be taken out.
pub open spec fn remove_failure_context() -> Seq<char> {
    "failed to remove shellcode"@
}

/// `r` is the failure of the step `context`, caused by `cause`.
pub open spec fn failed_with(r: Result<(), InjectionFailure>, context: Seq<char>, cause: String) -> bool {
    r matches Err(f) && f.context@ == context && f.cause == cause
}

/// `states` holds the injection before each of the first `k` settings, then
/// after them; it starts with `initial`.
pub open spec fn injection_states<T>(states: Seq<T>, k: int, initial: T, n: int) -> bool {
    &&& 0 <= k <= n
    &&& states.len() == k + 1
    &&& states[0] == initial
}

/// The calls of `setenv` for the first `k` settings, made through `calls`
/// on the injection as `states` holds it before each, each answering `Ok`: a
/// setting that names an environment variable has it set to its value (see
/// `env_assignment`); one that names none leaves the injection as it was.
pub open spec fn settings_taken<T: InjectionTrait>(
    settings: Seq<Seq<char>>,
    states: Seq<T>,
    k: int,
    calls: Seq<(&mut T, &str, &str)>,
) -> bool {
    &&& calls.len() == k
    &&& forall|j: int|
        0 <= j < k ==> match #[trigger] env_assignment(settings[j]) {
            Some(p) => calls[j].1@ == p.0 && calls[j].2@ == p.1 && mut_ref_current(calls[j].0) == states[j]
                && call_ensures(T::setenv, (calls[j].0, Some(calls[j].1), Some(calls[j].2)), Ok::<(), String>(())),
            None => states[j + 1] == states[j],
        }
}

/// The steps of injecting a library, the injection being in place: set the
/// environment variable of every setting that names one (see
/// `env_of_setting`), in order; load the library; take the injected code out.
/// Each step works on the injection as the step before left it. The first
/// step that fails ends the injection with its error; it succeeds when every
/// step does.
///
/// The run is told by `w`: the injection before each setting taken and after
/// the last (`states`), how many settings were taken (`k`), the `setenv` call
/// of each, the `setenv` call that failed where one did, and the `execute`
/// call with its answer and the answer of `remove`.
pub fn perform_injection<T: InjectionTrait>(injection: T, library: &str, settings: &Vec<String>) -> (r: Result<
    (),
    InjectionFailure,
>)
    ensures
        exists|
            w: (
                Seq<T>,
                int,
                Seq<(&mut T, &str, &str)>,
                (&mut T, &str, &str, String),
                (&mut T, Result<(), String>, Result<(), String>),
            ),
        |
            #![trigger injection_states(w.0, w.1, injection, settings@.len() as int)]
            {
                let (states, k, calls, failing, exec) = w;
                &&& injection_states(states, k, injection, settings@.len() as int)
                &&& settings_taken(settings@.map_values(|s: String| s@), states, k, calls)
                &&& forall|j: int|
                    0 <= j < k && env_assignment(settings@[j]@) is Some ==> mut_ref_future(#[trigger] calls[j].0)
                        == states[j + 1]
                &&& if k < settings@.len() {
                    &&& env_assignment(settings@[k]@) == Some((failing.1@, failing.2@))
                    &&& mut_ref_current(failing.0) == states[k]
                    &&& call_ensures(T::setenv, (failing.0, Some(failing.1), Some(failing.2)), Err::<(), String>(failing.3))
                    &&& failed_with(r, env_failure_context(), failing.3)
                } else {
                    &&& mut_ref_current(exec.0) == states[k]
                    &&& call_ensures(T::execute, (exec.0, library), exec.1)
                    &&& match exec.1 {
                        Err(e) => failed_with(r, execute_failure_context(), e),
                        Ok(_) => call_ensures(T::remove, (mut_ref_future(exec.0),), exec.2) && match exec.2 {
                            Ok(_) => r is Ok,
                            Err(e) => failed_with(r, remove_failure_context(), e),
                        },
                    }
                }
            },
{
    let ghost initial = injection;
    let ghost sv = settings@.map_values(|s: String| s@);
    let mut inj = injection;
    let ghost mut states: Seq<T> = seq![inj];
    let mut i: usize = 0;
    while i < settings.len()
        invariant
            i <= settings@.len(),
            sv == settings@.map_values(|s: String| s@),
            injection_states(states, i as int, initial, settings@.len() as int),
            states.last() == inj,
            initial == injection,
            forall|j: int|
                0 <= j < i ==> match #[trigger] env_assignment(sv[j]) {
                    Some(p) => exists|m: &mut T, ns: &str, vs: &str|
                        #![trigger call_ensures(T::setenv, (m, Some(ns), Some(vs)), Ok::<(), String>(()))]
                        ns@ == p.0 && vs@ == p.1 && mut_ref_current(m) == states[j] && mut_ref_future(m) == states[j
                            + 1] && call_ensures(T::setenv, (m, Some(ns), Some(vs)), Ok::<(), String>(())),
                    None => states[j + 1] == states[j],
                },
        decreases settings.len() - i,
    {
        let ghost pre_states = states;
        assert(sv[i as int] == settings@[i as int]@);
        match env_of_setting(settings[i].as_str()) {
            Some((name, value)) => {
                let n = name.as_str();
                let v = value.as_str();
                let answer = inj.setenv(Some(n), Some(v));
                proof {
                    states = states.push(inj);
                }
                match answer {
                    Ok(u) => {
                        proof {
                            assert(answer == Ok::<(), String>(u));
                        }
                    },
                    Err(e) => {
                        let f = InjectionFailure { context: String::from_str("failed to prepare env string"), cause: e };
                        let ghost st = pre_states;
                        let ghost calls = Seq::new(
                            i as nat,
                            |j: int|
                                choose|c: (&mut T, &str, &str)|
                                    #![trigger c.0]
                                    match env_assignment(sv[j]) {
                                        Some(p) => c.1@ == p.0 && c.2@ == p.1 && mut_ref_current(c.0) == st[j]
                                            && mut_ref_future(c.0) == st[j + 1] && call_ensures(
                                            T::setenv,
                                            (c.0, Some(c.1), Some(c.2)),
                                            Ok::<(), String>(()),
                                        ),
                                        None => true,
                                    },
                        );
                        let ghost failing = choose|m: &mut T|
                            mut_ref_current(m) == st[i as int] && #[trigger] call_ensures(
                                T::setenv,
                                (m, Some(n), Some(v)),
                                answer,
                            );
                        proof {
                            reveal_strlit("failed to prepare env string");
                            assert(forall|j: int| 0 <= j <= i ==> #[trigger] st[j] == states[j]);
                            assert forall|j: int| 0 <= j < i implies match #[trigger] env_assignment(sv[j]) {
                                Some(p) => calls[j].1@ == p.0 && calls[j].2@ == p.1 && mut_ref_current(calls[j].0) == st[j]
                                    && mut_ref_future(calls[j].0) == st[j + 1] && call_ensures(
                                    T::setenv,
                                    (calls[j].0, Some(calls[j].1), Some(calls[j].2)),
                                    Ok::<(), String>(()),
                                ),
                                None => st[j + 1] == st[j],
                            } by {
                                assert(sv[j] == settings@[j]@);
                                assert(st[j] == states[j] && st[j + 1] == states[j + 1]);
                                if let Some(p) = env_assignment(sv[j]) {
                                    let (m, ns, vs) = choose|m: &mut T, ns: &str, vs: &str|
                                        ns@ == p.0 && vs@ == p.1 && mut_ref_current(m) == st[j] && mut_ref_future(m)
                                            == st[j + 1] && #[trigger] call_ensures(
                                            T::setenv,
                                            (m, Some(ns), Some(vs)),
                                            Ok::<(), String>(()),
                                        );
                                    assert(match env_assignment(sv[j]) {
                                        Some(p) => (m, ns, vs).1@ == p.0 && (m, ns, vs).2@ == p.1 && mut_ref_current(
                                            (m, ns, vs).0,
                                        ) == st[j] && mut_ref_future((m, ns, vs).0) == st[j + 1] && call_ensures(
                                            T::setenv,
                                            ((m, ns, vs).0, Some((m, ns, vs).1), Some((m, ns, vs).2)),
                                            Ok::<(), String>(()),
                                        ),
                                        None => true,
                                    });
                                }
                            }
                            assert(settings_taken(sv, st, i as int, calls));
                            assert(st[i as int] == pre_states.last());
                            assert(exists|m: &mut T|
                                mut_ref_current(m) == st[i as int] && #[trigger] call_ensures(
                                    T::setenv,
                                    (m, Some(n), Some(v)),
                                    answer,
                                ));
                            assert(failed_with(Err(f), env_failure_context(), e));
                            assert(env_assignment(settings@[i as int]@) == Some((n@, v@)));
                        }
                        let ghost w = (
                            st,
                            i as int,
                            calls,
                            (failing, n, v, e),
                            arbitrary::<(&mut T, Result<(), String>, Result<(), String>)>(),
                        );
                        proof {
                            assert(injection_states(w.0, w.1, initial, settings@.len() as int));
                        }
                        return Err(f);
                    },
                }
            },
            None => {
                proof {
                    states = states.push(inj);
                }
            },
        }
        proof {
            assert forall|j: int|
                0 <= j < i + 1 implies match #[trigger] env_assignment(sv[j]) {
                    Some(p) => exists|m: &mut T, ns: &str, vs: &str|
                        #![trigger call_ensures(T::setenv, (m, Some(ns), Some(vs)), Ok::<(), String>(()))]
                        ns@ == p.0 && vs@ == p.1 && mut_ref_current(m) == states[j] && mut_ref_future(m) == states[j
                            + 1] && call_ensures(T::setenv, (m, Some(ns), Some(vs)), Ok::<(), String>(())),
                    None => states[j + 1] == states[j],
                } by {
                if j < i {
                    assert(states[j] == pre_states[j] && states[j + 1] == pre_states[j + 1]);
                }
            }
        }
        i = i + 1;
    }
    let ghost before_exec = inj;
    let executed = inj.execute(library);
    let ghost calls = Seq::new(
        i as nat,
        |j: int|
            choose|c: (&mut T, &str, &str)|
#![trigger c.0]
                match env_assignment(sv[j]) {
                    Some(p) => c.1@ == p.0 && c.2@ == p.1 && mut_ref_current(c.0) == states[j] && mut_ref_future(c.0)
                        == states[j + 1] && call_ensures(T::setenv, (c.0, Some(c.1), Some(c.2)), Ok::<(), String>(())),
                    None => true,
                },
    );
    let ghost exec = choose|m: &mut T| mut_ref_current(m) == before_exec && mut_ref_future(m) == inj
        && #[trigger] call_ensures(T::execute, (m, library), executed);
    proof {
        assert forall|j: int| 0 <= j < i implies match #[trigger] env_assignment(sv[j]) {
            Some(p) => calls[j].1@ == p.0 && calls[j].2@ == p.1 && mut_ref_current(calls[j].0) == states[j]
                && mut_ref_future(calls[j].0) == states[j + 1] && call_ensures(
                T::setenv,
                (calls[j].0, Some(calls[j].1), Some(calls[j].2)),
                Ok::<(), String>(()),
            ),
            None => states[j + 1] == states[j],
        } by {
            assert(sv[j] == settings@[j]@);
            if let Some(p) = env_assignment(sv[j]) {
                let (m, ns, vs) = choose|m: &mut T, ns: &str, vs: &str|
                    ns@ == p.0 && vs@ == p.1 && mut_ref_current(m) == states[j] && mut_ref_future(m) == states[j + 1]
                        && #[trigger] call_ensures(T::setenv, (m, Some(ns), Some(vs)), Ok::<(), String>(()));
                assert(match env_assignment(sv[j]) {
                    Some(p) => (m, ns, vs).1@ == p.0 && (m, ns, vs).2@ == p.1 && mut_ref_current((m, ns, vs).0) == states[j]
                        && mut_ref_future((m, ns, vs).0) == states[j + 1] && call_ensures(
                        T::setenv,
                        ((m, ns, vs).0, Some((m, ns, vs).1), Some((m, ns, vs).2)),
                        Ok::<(), String>(()),
                    ),
                    None => true,
                });
            }
        }
        assert(settings_taken(sv, states, i as int, calls));
        assert(exists|m: &mut T| mut_ref_current(m) == before_exec && mut_ref_future(m) == inj
            && #[trigger] call_ensures(T::execute, (m, library), executed));
        assert(injection_states(states, i as int, initial, settings@.len() as int));
    }
    match executed {
        Ok(()) => {},
        Err(e) => {
            let f = InjectionFailure { context: String::from_str("failed to execute shellcode"), cause: e };
            proof {
                reveal_strlit("failed to execute shellcode");
                assert(failed_with(Err(f), execute_failure_context(), e));
                let w = (states, i as int, calls, arbitrary::<(&mut T, &str, &str, String)>(), (exec, executed, arbitrary::<Result<(), String>>()));
                assert(injection_states(w.0, w.1, initial, settings@.len() as int));
            }
            return Err(f);
        },
    }
    let ghost before = inj;
    let removed = inj.remove();
    let r = match removed {
        Ok(()) => Ok(()),
        Err(e) => Err(InjectionFailure { context: String::from_str("failed to remove shellcode"), cause: e }),
    };
    proof {
        reveal_strlit("failed to remove shellcode");
        assert(call_ensures(T::remove, (before,), removed));
        let w = (states, i as int, calls, arbitrary::<(&mut T, &str, &str, String)>(), (exec, executed, removed));
        assert(injection_states(w.0, w.1, initial, settings@.len() as int));
    }
    r
}

} // verus!
