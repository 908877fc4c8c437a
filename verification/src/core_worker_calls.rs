//! The decisions behind the core worker's Python-facing calls: how a task
//! call is read from either of its argument forms, when a failed submission
//! is tried again, what a worker's reply to a pushed task means, how
//! `wait` splits object references into ready and remaining ones, and how a
//! worker's start-up arguments map onto its options.
//!
//! The calls themselves (the Python objects, the RPCs, the object store) are
//! not here; these functions take and give plain values.

use vstd::prelude::*;
use vstd::string::StrSliceExecFns;
use vstd::string::StringExecFns;

use crate::port_file::port_file_text;
use crate::port_file::port_text_spec;

verus! {

/// The number of positional arguments from which a `submit_task` call is
/// read in the long form that Ray's Python layer uses.
pub const LEGACY_SUBMIT_ARITY: usize = 17;

/// The number of positional arguments from which a core worker's
/// constructor is read in the long form that Ray's Python layer uses.
pub const LEGACY_WORKER_ARITY: usize = 19;

/// The prefix of a failure that the task itself raised, as opposed to one
/// of the transport.
pub open spec fn task_error_prefix() -> Seq<char> {
    seq!['T', 'A', 'S', 'K', '_', 'E', 'R', 'R', 'O', 'R', ':']
}

/// The prefix of a failure that an actor's task raised.
pub open spec fn actor_task_error_prefix() -> Seq<char> {
    seq!['A', 'C', 'T', 'O', 'R', '_'] + task_error_prefix()
}

/// Whether `pat` occurs in `s` starting at `i`.
pub open spec fn occurs_at(s: Seq<char>, pat: Seq<char>, i: int) -> bool {
    0 <= i && i + pat.len() <= s.len() && s.subrange(i, i + pat.len()) == pat
}

/// Whether `pat` occurs anywhere in `s`.
pub open spec fn contains_spec(s: Seq<char>, pat: Seq<char>) -> bool {
    exists|i: int| occurs_at(s, pat, i)
}

/// `s` without the prefix `pat`, where it starts with it.
pub open spec fn strip_prefix_spec(s: Seq<char>, pat: Seq<char>) -> Seq<char> {
    if occurs_at(s, pat, 0) {
        s.subrange(pat.len() as int, s.len() as int)
    } else {
        s
    }
}

/// Whether `pat` occurs in `s` starting at `i`.
fn matches_at(s: &str, pat: &str, i: usize) -> (b: bool)
    ensures
        b == occurs_at(s@, pat@, i as int),
{
    let n = s.unicode_len();
    let m = pat.unicode_len();
    if i > n || m > n - i {
        return false;
    }
    let mut j: usize = 0;
    while j < m
        invariant
            n == s@.len(),
            m == pat@.len(),
            i + m <= n,
            j <= m,
            forall|k: int| 0 <= k < j ==> s@[i + k] == pat@[k],
        decreases m - j,
    {
        if s.get_char(i + j) != pat.get_char(j) {
            proof {
                assert(s@.subrange(i as int, i + m)[j as int] != pat@[j as int]);
            }
            return false;
        }
        j = j + 1;
    }
    assert(s@.subrange(i as int, i + m) =~= pat@);
    true
}

/// Whether `pat` occurs anywhere in `s`.
pub fn contains_str(s: &str, pat: &str) -> (b: bool)
    ensures
        b == contains_spec(s@, pat@),
{
    let n = s.unicode_len();
    let m = pat.unicode_len();
    if m > n {
        return false;
    }
    let limit = n - m;
    let mut i: usize = 0;
    while i < limit
        invariant
            n == s@.len(),
            m == pat@.len(),
            m <= n,
            limit == n - m,
            i <= limit,
            forall|k: int| 0 <= k < i ==> !occurs_at(s@, pat@, k),
        decreases limit - i,
    {
        if matches_at(s, pat, i) {
            return true;
        }
        i = i + 1;
    }
    if matches_at(s, pat, limit) {
        return true;
    }
    assert forall|k: int| !occurs_at(s@, pat@, k) by {
        if 0 <= k && k + m <= n {
            assert(k <= limit);
        }
    }
    false
}

/// `s` without the prefix `pat`, where it starts with it.
pub fn strip_prefix(s: &str, pat: &str) -> (r: String)
    ensures
        r@ == strip_prefix_spec(s@, pat@),
{
    if matches_at(s, pat, 0) {
        String::from_str(s.substring_char(pat.unicode_len(), s.unicode_len()))
    } else {
        String::from_str(s)
    }
}

/// How a task call reads: its name, the number of values it returns and
/// the number of times a failure of the task itself is retried.
pub struct TaskCall {
    pub name: String,
    pub num_returns: u64,
    pub max_retries: i32,
}

/// Whether a `submit_task` call with `argc` positional arguments is read
/// in the long form.
pub fn uses_legacy_submit_form(argc: usize) -> (b: bool)
    ensures
        b == (argc >= LEGACY_SUBMIT_ARITY),
{
    argc >= LEGACY_SUBMIT_ARITY
}

/// A task call in the long form: the explicit name where one is given and
/// not empty, else the function descriptor's name, else the empty name; one
/// return value and no retries unless given.
pub fn resolve_legacy_task_call(
    explicit_name: Option<String>,
    descriptor_name: Option<String>,
    num_returns: Option<u64>,
    max_retries: Option<i32>,
) -> (c: TaskCall)
    ensures
        c.name@ == (match explicit_name {
            Some(n) if n@.len() > 0 => n@,
            _ => match descriptor_name {
                Some(d) => d@,
                None => Seq::empty(),
            },
        }),
        c.num_returns == (match num_returns {
            Some(k) => k,
            None => 1,
        }),
        c.max_retries == (match max_retries {
            Some(k) => k,
            None => 0,
        }),
{
    let name = match explicit_name {
        Some(n) if n.as_str().unicode_len() > 0 => n,
        _ => match descriptor_name {
            Some(d) => d,
            None => String::new(),
        },
    };
    let num_returns = match num_returns {
        Some(k) => k,
        None => 1,
    };
    let max_retries = match max_retries {
        Some(k) => k,
        None => 0,
    };
    TaskCall { name, num_returns, max_retries }
}

/// A task call in the short form: the given name; one return value and no
/// retries unless given.
pub fn resolve_compact_task_call(
    name: String,
    num_returns: Option<u64>,
    max_retries: Option<i32>,
) -> (c: TaskCall)
    ensures
        c.name@ == name@,
        c.num_returns == (match num_returns {
            Some(k) => k,
            None => 1,
        }),
        c.max_retries == (match max_retries {
            Some(k) => k,
            None => 0,
        }),
{
    let num_returns = match num_returns {
        Some(k) => k,
        None => 1,
    };
    let max_retries = match max_retries {
        Some(k) => k,
        None => 0,
    };
    TaskCall { name, num_returns, max_retries }
}

/// The indices `1..=count` of the objects that a task returns, in order.
pub fn return_object_indices(count: u32) -> (r: Vec<u32>)
    ensures
        r@.len() == count,
        forall|i: int| 0 <= i < count ==> #[trigger] r@[i] == i + 1,
{
    let mut r: Vec<u32> = Vec::new();
    let mut i: u32 = 0;
    while i < count
        invariant
            i <= count,
            r@.len() == i,
            forall|j: int| 0 <= j < i ==> #[trigger] r@[j] == j + 1,
        decreases count - i,
    {
        r.push(i + 1);
        i = i + 1;
    }
    r
}

/// The number of objects that a task call returns: its number of return
/// values, cut to 32 bits as object indices are.
pub fn task_return_count(call: &TaskCall) -> (n: u32)
    ensures
        n == call.num_returns as u32,
{
    call.num_returns as u32
}

/// The number of objects that an actor task call in the long form returns:
/// the number given, or one, and at least one, cut to 32 bits.
pub fn actor_task_return_count(num_returns: Option<i64>) -> (n: u32)
    ensures
        n == (match num_returns {
            Some(k) if k > 1 => k as u32,
            _ => 1u32,
        }),
{
    let k = match num_returns {
        Some(k) => k,
        None => 1,
    };
    if k > 1 {
        k as u32
    } else {
        1
    }
}

/// The number of values that a task's execution callback is asked for:
/// the task's number of return values, and at least one.
pub fn callback_return_count(num_returns: u64) -> (n: usize)
    ensures
        n == (if num_returns > 1 {
            num_returns as usize
        } else {
            1usize
        }),
{
    if num_returns > 1 {
        num_returns as usize
    } else {
        1
    }
}

/// Whether a callback asked for `count` values hands back a list of byte
/// strings (several values) rather than one byte string.
pub fn callback_returns_list(count: usize) -> (b: bool)
    ensures
        b == (count > 1),
{
    count > 1
}

/// The metadata of the objects that a task's execution callback returns:
/// `python`.
pub open spec fn python_metadata() -> Seq<u8> {
    seq![112u8, 121u8, 116u8, 104u8, 111u8, 110u8]
}

/// An object that an executed task returns: its index among the task's
/// return objects, its data and its metadata.
pub struct ReturnObject {
    pub index: u32,
    pub data: Vec<u8>,
    pub metadata: Vec<u8>,
}

/// The objects that a task returns from the values its execution callback
/// gave: the `i`-th value becomes object `i + 1` (cut to 32 bits, as object
/// indices are), with metadata `python`.
pub fn callback_return_objects(values: Vec<Vec<u8>>) -> (r: Vec<ReturnObject>)
    ensures
        r@.len() == values@.len(),
        forall|i: int|
            0 <= i < values@.len() ==> {
                &&& (#[trigger] r@[i]).index == (i + 1) as u32
                &&& r@[i].data@ == values@[i]@
                &&& r@[i].metadata@ == python_metadata()
            },
{
    let mut values = values;
    let ghost vs = values@;
    let n = values.len();
    let mut rev: Vec<ReturnObject> = Vec::new();
    let mut k: usize = n;
    while k > 0
        invariant
            k <= n,
            n == vs.len(),
            values@ == vs.subrange(0, k as int),
            rev@.len() == n - k,
            forall|j: int|
                0 <= j < n - k ==> {
                    let i = n - 1 - j;
                    &&& (#[trigger] rev@[j]).index == (i + 1) as u32
                    &&& rev@[j].data@ == vs[i]@
                    &&& rev@[j].metadata@ == python_metadata()
                },
        decreases k,
    {
        let data = values.pop().unwrap();
        let metadata = vec![112u8, 121u8, 116u8, 104u8, 111u8, 110u8];
        proof {
            assert(metadata@ =~= python_metadata());
            assert(values@ =~= vs.subrange(0, k - 1));
        }
        let index = (k as u64 % 0x1_0000_0000) as u32;
        proof {
            assert(index == (k as int) as u32) by (bit_vector)
                requires
                    index == (k as u64 % 0x1_0000_0000) as u32;
        }
        rev.push(ReturnObject { index, data, metadata });
        k = k - 1;
    }
    let mut r: Vec<ReturnObject> = Vec::new();
    while rev.len() > 0
        invariant
            rev@.len() + r@.len() == n,
            n == vs.len(),
            forall|j: int|
                0 <= j < rev@.len() ==> {
                    let i = n - 1 - j;
                    &&& (#[trigger] rev@[j]).index == (i + 1) as u32
                    &&& rev@[j].data@ == vs[i]@
                    &&& rev@[j].metadata@ == python_metadata()
                },
            forall|i: int|
                0 <= i < r@.len() ==> {
                    &&& (#[trigger] r@[i]).index == (i + 1) as u32
                    &&& r@[i].data@ == vs[i]@
                    &&& r@[i].metadata@ == python_metadata()
                },
        decreases rev@.len(),
    {
        let o = rev.pop().unwrap();
        r.push(o);
    }
    r
}

/// What a driver does after one attempt to submit a task.
#[derive(PartialEq, Eq, Debug)]
pub enum SubmitStep {
    /// The submission went through.
    Done,
    /// The task itself failed and may run again, with this many retries left.
    Retry { retries_left: i32 },
    /// The submission failed for a reason other than the task itself while
    /// retries were left: the error goes back to the caller as it is.
    Fail,
    /// The last allowed attempt failed: the failure is stored as the value
    /// of each of the task's return objects.
    StoreError,
}

/// The step after an attempt whose outcome is `failure` (`None` where the
/// submission went through, the error's text otherwise).
pub open spec fn submit_step_spec(retries_left: i32, failure: Option<Seq<char>>) -> SubmitStep {
    match failure {
        None => SubmitStep::Done,
        Some(msg) => if retries_left > 0 {
            if contains_spec(msg, task_error_prefix()) {
                SubmitStep::Retry { retries_left: (retries_left - 1) as i32 }
            } else {
                SubmitStep::Fail
            }
        } else {
            SubmitStep::StoreError
        },
    }
}

/// The step after one attempt to submit a task: a failure of the task itself
/// is retried while retries are left; any other failure with retries left
/// is handed back; a failure with none left is stored.
pub fn next_submit_step(retries_left: i32, outcome: &Result<(), String>) -> (s: SubmitStep)
    ensures
        s == submit_step_spec(
            retries_left,
            match outcome {
                Ok(()) => None,
                Err(msg) => Some(msg@),
            },
        ),
{
    let prefix = "TASK_ERROR:";
    proof {
        reveal_strlit("TASK_ERROR:");
        assert(prefix@ =~= task_error_prefix());
    }
    match outcome {
        Ok(()) => SubmitStep::Done,
        Err(msg) => {
            if retries_left > 0 {
                if contains_str(msg.as_str(), prefix) {
                    SubmitStep::Retry { retries_left: retries_left - 1 }
                } else {
                    SubmitStep::Fail
                }
            } else {
                SubmitStep::StoreError
            }
        },
    }
}

/// The number of attempts a submission makes when its attempts fail or
/// succeed as `outcomes` says, starting with `retries_left` retries: it stops
/// at the first step that is not a retry, or when the outcomes run out.
pub open spec fn submit_attempts(retries_left: i32, outcomes: Seq<Option<Seq<char>>>) -> nat
    decreases outcomes.len(),
{
    if outcomes.len() == 0 {
        0
    } else {
        match submit_step_spec(retries_left, outcomes[0]) {
            SubmitStep::Retry { retries_left: r } => 1 + submit_attempts(r, outcomes.drop_first()),
            _ => 1,
        }
    }
}

/// However its attempts turn out, a task submitted with `max_retries`
/// retries is attempted at most `max_retries + 1` times (once where
/// `max_retries` is not positive).
pub proof fn law_submission_attempts_are_bounded(
    max_retries: i32,
    outcomes: Seq<Option<Seq<char>>>,
)
    ensures
        submit_attempts(max_retries, outcomes) <= (if max_retries > 0 {
            max_retries + 1
        } else {
            1
        }),
    decreases outcomes.len(),
{
    if outcomes.len() > 0 {
        match submit_step_spec(max_retries, outcomes[0]) {
            SubmitStep::Retry { retries_left: r } => {
                law_submission_attempts_are_bounded(r, outcomes.drop_first());
            },
            _ => {},
        }
    }
}

/// The value stored for each return object of a task whose last attempt
/// failed with `message`: the message without its task-error prefix.
pub fn task_error_payload(message: &str) -> (r: String)
    ensures
        r@ == strip_prefix_spec(message@, task_error_prefix()),
{
    let prefix = "TASK_ERROR:";
    proof {
        reveal_strlit("TASK_ERROR:");
        assert(prefix@ =~= task_error_prefix());
    }
    strip_prefix(message, prefix)
}

/// The metadata of an object that records a task's failure: `ERROR`.
pub open spec fn error_metadata() -> Seq<u8> {
    seq![69u8, 82u8, 82u8, 79u8, 82u8]
}

/// Whether a fetched object (`None` where it was not found) records a
/// task's failure.
pub open spec fn marks_failure(entry: Option<Vec<u8>>) -> bool {
    entry matches Some(m) && m@ == error_metadata()
}

/// Whether object metadata marks the object as a stored task failure.
pub fn is_error_metadata(metadata: &Vec<u8>) -> (b: bool)
    ensures
        b == (metadata@ == error_metadata()),
{
    let b = metadata.len() == 5 && metadata[0] == 69u8 && metadata[1] == 82u8 && metadata[2] == 82u8
        && metadata[3] == 79u8 && metadata[4] == 82u8;
    proof {
        if b {
            assert(metadata@ =~= error_metadata());
        }
    }
    b
}

/// The position of the first fetched object that records a task's failure,
/// given the metadata of each object that was found (`None` for one that
/// was not); such an object turns the whole fetch into that failure.
pub fn first_failed_object(metadata: &Vec<Option<Vec<u8>>>) -> (r: Option<usize>)
    ensures
        match r {
            Some(i) => {
                &&& i < metadata@.len()
                &&& marks_failure(metadata@[i as int])
                &&& forall|j: int| 0 <= j < i ==> !marks_failure(#[trigger] metadata@[j])
            },
            None => forall|j: int| 0 <= j < metadata@.len() ==> !marks_failure(#[trigger] metadata@[j]),
        },
{
    let mut i: usize = 0;
    while i < metadata.len()
        invariant
            i <= metadata@.len(),
            forall|j: int| 0 <= j < i ==> !marks_failure(#[trigger] metadata@[j]),
        decreases metadata.len() - i,
    {
        match &metadata[i] {
            Some(m) => {
                if is_error_metadata(m) {
                    return Some(i);
                }
            },
            None => {},
        }
        i = i + 1;
    }
    None
}

/// What a worker's reply to a pushed task means: a failure, with the
/// given prefix before the task's error text, where the task reported an
/// error and returned no objects; success otherwise (its objects are then
/// stored).
pub open spec fn push_reply_spec(
    prefix: Seq<char>,
    task_error: Seq<char>,
    returned_objects: nat,
) -> Result<(), Seq<char>> {
    if task_error.len() > 0 && returned_objects == 0 {
        Err(prefix + task_error)
    } else {
        Ok(())
    }
}

fn push_reply_outcome(prefix: &str, task_error: &str, returned_objects: usize) -> (r: Result<
    (),
    String,
>)
    ensures
        match r {
            Ok(()) => push_reply_spec(prefix@, task_error@, returned_objects as nat) is Ok,
            Err(m) => push_reply_spec(prefix@, task_error@, returned_objects as nat) == Err::<
                (),
                Seq<char>,
            >(m@),
        },
{
    if task_error.unicode_len() > 0 && returned_objects == 0 {
        let mut m = String::from_str(prefix);
        m.append(task_error);
        Err(m)
    } else {
        Ok(())
    }
}

/// What a worker's reply to a pushed normal task means.
pub fn task_push_outcome(task_error: &str, returned_objects: usize) -> (r: Result<(), String>)
    ensures
        match r {
            Ok(()) => push_reply_spec(task_error_prefix(), task_error@, returned_objects as nat) is Ok,
            Err(m) => push_reply_spec(task_error_prefix(), task_error@, returned_objects as nat)
                == Err::<(), Seq<char>>(m@),
        },
{
    let prefix = "TASK_ERROR:";
    proof {
        reveal_strlit("TASK_ERROR:");
        assert(prefix@ =~= task_error_prefix());
    }
    push_reply_outcome(prefix, task_error, returned_objects)
}

/// What a worker's reply to a pushed actor task means.
pub fn actor_task_push_outcome(task_error: &str, returned_objects: usize) -> (r: Result<
    (),
    String,
>)
    ensures
        match r {
            Ok(()) => push_reply_spec(actor_task_error_prefix(), task_error@, returned_objects as nat)
                is Ok,
            Err(m) => push_reply_spec(actor_task_error_prefix(), task_error@, returned_objects as nat)
                == Err::<(), Seq<char>>(m@),
        },
{
    let prefix = "ACTOR_TASK_ERROR:";
    proof {
        reveal_strlit("ACTOR_TASK_ERROR:");
        assert(prefix@ =~= actor_task_error_prefix());
    }
    push_reply_outcome(prefix, task_error, returned_objects)
}

/// The address to which a task is pushed: `http://{ip}:{port}`.
pub open spec fn push_endpoint_spec(ip: Seq<char>, port: i32) -> Seq<char> {
    seq!['h', 't', 't', 'p', ':', '/', '/'] + ip + seq![':'] + port_text_spec(port)
}

/// The address to which a task is pushed: `http://{ip}:{port}`.
pub fn push_endpoint(ip: &str, port: i32) -> (r: String)
    ensures
        r@ == push_endpoint_spec(ip@, port),
{
    proof {
        reveal_strlit("http://");
        reveal_strlit(":");
    }
    let mut r = String::from_str("http://");
    r.append(ip);
    r.append(":");
    let p = port_file_text(port);
    r.append(p.as_str());
    r
}

/// The positions of the first `i` references split by `wait`: a reference
/// is ready where the store found it ready and fewer than `num_objects`
/// are ready so far; it remains otherwise.
pub open spec fn wait_split_spec(mask: Seq<bool>, num_objects: nat, i: nat) -> (Seq<int>, Seq<int>)
    decreases i,
{
    if i == 0 {
        (Seq::empty(), Seq::empty())
    } else {
        let (ready, remaining) = wait_split_spec(mask, num_objects, (i - 1) as nat);
        if mask[i - 1] && ready.len() < num_objects {
            (ready.push(i - 1), remaining)
        } else {
            (ready, remaining.push(i - 1))
        }
    }
}

/// The number of references that `wait` splits: those with a readiness flag.
pub open spec fn wait_count(n_refs: nat, mask_len: nat) -> nat {
    if n_refs <= mask_len {
        n_refs
    } else {
        mask_len
    }
}

/// Splits the positions of `n_refs` object references into those that
/// `wait` reports ready and those that remain, keeping their order: a
/// reference is ready where its flag in `ready_mask` is set and fewer than
/// `num_objects` are ready before it. References without a flag are left out.
pub fn split_ready(ready_mask: &Vec<bool>, n_refs: usize, num_objects: usize) -> (r: (
    Vec<usize>,
    Vec<usize>,
))
    ensures
        ({
            let (ready, remaining) = wait_split_spec(
                ready_mask@,
                num_objects as nat,
                wait_count(n_refs as nat, ready_mask@.len()),
            );
            &&& r.0@.len() == ready.len()
            &&& r.1@.len() == remaining.len()
            &&& forall|j: int| 0 <= j < ready.len() ==> #[trigger] r.0@[j] == ready[j]
            &&& forall|j: int| 0 <= j < remaining.len() ==> #[trigger] r.1@[j] == remaining[j]
        }),
{
    let m = if n_refs <= ready_mask.len() {
        n_refs
    } else {
        ready_mask.len()
    };
    let mut ready: Vec<usize> = Vec::new();
    let mut remaining: Vec<usize> = Vec::new();
    let mut i: usize = 0;
    while i < m
        invariant
            m == wait_count(n_refs as nat, ready_mask@.len()),
            m <= ready_mask@.len(),
            i <= m,
            ({
                let (rs, ms) = wait_split_spec(ready_mask@, num_objects as nat, i as nat);
                &&& ready@.len() == rs.len()
                &&& remaining@.len() == ms.len()
                &&& forall|j: int| 0 <= j < rs.len() ==> #[trigger] ready@[j] == rs[j]
                &&& forall|j: int| 0 <= j < ms.len() ==> #[trigger] remaining@[j] == ms[j]
            }),
        decreases m - i,
    {
        if ready_mask[i] && ready.len() < num_objects {
            ready.push(i);
        } else {
            remaining.push(i);
        }
        i = i + 1;
    }
    (ready, remaining)
}

/// What `wait` promises of its split of the first `i` references: at most
/// `num_objects` are ready, every ready one was found ready, each position
/// is in exactly one of the two lists, both lists keep the input order, and
/// where fewer than `num_objects` are ready no reference found ready was
/// left out.
pub proof fn law_wait_split_keeps_order_and_count(mask: Seq<bool>, num_objects: nat, i: nat)
    requires
        i <= mask.len(),
    ensures
        ({
            let (ready, remaining) = wait_split_spec(mask, num_objects, i);
            &&& ready.len() <= num_objects
            &&& ready.len() + remaining.len() == i
            &&& forall|j: int| 0 <= j < ready.len() ==> 0 <= #[trigger] ready[j] < i && mask[ready[j]]
            &&& forall|j: int| 0 <= j < remaining.len() ==> 0 <= #[trigger] remaining[j] < i
            &&& forall|a: int, b: int| 0 <= a < b < ready.len() ==> ready[a] < ready[b]
            &&& forall|a: int, b: int| 0 <= a < b < remaining.len() ==> remaining[a] < remaining[b]
            &&& forall|a: int, b: int|
                0 <= a < ready.len() && 0 <= b < remaining.len() ==> ready[a] != remaining[b]
            &&& ready.len() < num_objects ==> forall|j: int|
                0 <= j < remaining.len() ==> !mask[#[trigger] remaining[j]]
        }),
    decreases i,
{
    if i > 0 {
        law_wait_split_keeps_order_and_count(mask, num_objects, (i - 1) as nat);
    }
}

/// The timeout, in milliseconds, of a fetch asked for with `timeout_ms`: a
/// negative timeout waits without end.
pub fn fetch_timeout_ms(timeout_ms: i64) -> (t: u64)
    ensures
        t == (if timeout_ms < 0 {
            u64::MAX
        } else {
            timeout_ms as u64
        }),
{
    if timeout_ms < 0 {
        u64::MAX
    } else {
        timeout_ms as u64
    }
}

/// Whether a core worker's constructor with `argc` positional arguments is
/// read in the long form.
pub fn uses_legacy_worker_form(argc: usize) -> (b: bool)
    ensures
        b == (argc >= LEGACY_WORKER_ARITY),
{
    argc >= LEGACY_WORKER_ARITY
}

/// The worker type of a process started in the long form with the given
/// mode: script mode (0) is a driver (1), worker mode (1) is a worker (0),
/// and any other mode is taken as the type itself.
pub fn legacy_worker_type(mode: i32) -> (t: i32)
    ensures
        t == (if mode == 0 {
            1
        } else if mode == 1 {
            0
        } else {
            mode
        }),
{
    if mode == 0 {
        1
    } else if mode == 1 {
        0
    } else {
        mode
    }
}

/// The raylet port to which a worker started in the long form sends its
/// tasks: the node manager port where one is given and positive, cut to
/// 16 bits.
pub fn raylet_dispatch_port(node_manager_port: Option<i32>) -> (p: Option<u16>)
    ensures
        p == (match node_manager_port {
            Some(port) if port > 0 => Some(port as u16),
            _ => None,
        }),
{
    match node_manager_port {
        Some(port) => if port > 0 {
            Some(port as u16)
        } else {
            None
        },
        None => None,
    }
}

} // verus!
