//! How the GCS client reads the GCS's replies, and what it puts in its
//! requests: key-value reads and deletes, actor registration and lookup,
//! and placement groups.

use vstd::prelude::*;
use vstd::string::StrSliceExecFns;
use vstd::string::StringExecFns;

verus! {

/// The value that a key-value read gives (`None` where the call failed): an
/// empty value stands for a missing key.
pub fn kv_read_value(reply: Option<Vec<u8>>) -> (r: Option<Vec<u8>>)
    ensures
        r == (match reply {
            Some(v) if v@.len() > 0 => Some(v),
            _ => None,
        }),
{
    match reply {
        Some(v) => if v.len() > 0 {
            Some(v)
        } else {
            None
        },
        None => None,
    }
}

/// Whether a key-value delete removed something, given how many entries
/// the GCS says it deleted (`None` where the call failed).
pub fn kv_deleted(deleted_num: Option<i64>) -> (b: bool)
    ensures
        b == (deleted_num matches Some(k) && k > 0),
{
    match deleted_num {
        Some(k) => k > 0,
        None => false,
    }
}

/// The code of a placement strategy: `PACK` 0, `SPREAD` 1, `STRICT_PACK` 2,
/// `STRICT_SPREAD` 3; any other name is taken as `PACK`.
pub open spec fn strategy_code_spec(strategy: Seq<char>) -> i32 {
    if strategy == "SPREAD"@ {
        1
    } else if strategy == "STRICT_PACK"@ {
        2
    } else if strategy == "STRICT_SPREAD"@ {
        3
    } else {
        0
    }
}

/// The code of a placement strategy: `PACK` 0, `SPREAD` 1, `STRICT_PACK` 2,
/// `STRICT_SPREAD` 3; any other name is taken as `PACK`.
pub fn placement_strategy_code(strategy: &str) -> (c: i32)
    ensures
        c == strategy_code_spec(strategy@),
{
    let s = String::from_str(strategy);
    if s == String::from_str("SPREAD") {
        1
    } else if s == String::from_str("STRICT_PACK") {
        2
    } else if s == String::from_str("STRICT_SPREAD") {
        3
    } else {
        0
    }
}

/// The address through which the client reaches the GCS at `address`.
pub fn gcs_endpoint(address: &str) -> (r: String)
    ensures
        r@ == "http://"@ + address@,
{
    let mut r = String::from_str("http://");
    r.append(address);
    r
}

/// The cluster ID that a client is given, where one is given and not
/// empty; without one the client makes up a random ID.
pub fn given_cluster_id(cluster_id: Option<String>) -> (r: Option<String>)
    ensures
        r == (match cluster_id {
            Some(id) if id@.len() > 0 => Some(id),
            _ => None,
        }),
{
    match cluster_id {
        Some(id) => if id.as_str().unicode_len() > 0 {
            Some(id)
        } else {
            None
        },
        None => None,
    }
}

/// The name of the task that creates an actor of class `name`:
/// `{name}.__init__`.
pub fn actor_creation_task_name(name: &str) -> (r: String)
    ensures
        r@ == name@ + ".__init__"@,
{
    let mut r = String::from_str(name);
    r.append(".__init__");
    r
}

/// Whether an actor registration succeeded, given the status code of the
/// reply (`None` where the reply has no status): any code but 0 is a
/// failure.
pub fn registration_succeeded(status_code: Option<i32>) -> (b: bool)
    ensures
        b == (match status_code {
            Some(code) => code == 0,
            None => true,
        }),
{
    match status_code {
        Some(code) => code == 0,
        None => true,
    }
}

/// The ID of a named actor that a lookup found, given the actor ID in the
/// reply (`None` where the call failed or the reply holds no actor): an
/// empty ID means that there is no such actor.
pub fn named_actor_id(actor_id: Option<Vec<u8>>) -> (r: Option<Vec<u8>>)
    ensures
        r == (match actor_id {
            Some(id) if id@.len() > 0 => Some(id),
            _ => None,
        }),
{
    match actor_id {
        Some(id) => if id.len() > 0 {
            Some(id)
        } else {
            None
        },
        None => None,
    }
}

/// Whether a placement group is ready, given the status code of the wait's
/// reply (`None` where the call failed or the reply has no status).
pub fn placement_group_ready(status_code: Option<i32>) -> (b: bool)
    ensures
        b == (status_code == Some(0i32)),
{
    match status_code {
        Some(code) => code == 0,
        None => false,
    }
}

} // verus!
