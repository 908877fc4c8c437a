//! The cluster's node table as the Python layer asks for it: the nodes that
//! the GCS reports merged with the nodes of local sessions that have not
//! reached the GCS yet, filtered by state and by node selectors; the lookup
//! of one node by its hexadecimal ID; and which nodes count as alive.

use vstd::prelude::*;
use vstd::string::StrSliceExecFns;
use vstd::string::StringExecFns;

verus! {

/// What the node table reads of one node's record.
pub struct NodeRecord {
    pub node_id: Vec<u8>,
    pub node_name: String,
    pub node_manager_address: String,
    pub object_store_socket_name: String,
    pub state: i32,
    pub is_head_node: bool,
}

/// One condition that a node must meet to be listed.
pub enum NodeSelector {
    NodeId(Vec<u8>),
    NodeName(String),
    NodeIpAddress(String),
    IsHeadNode(bool),
    /// A selector that names no condition; every node meets it.
    Unset,
}

/// Where a listed node comes from: a position in the local sessions' nodes
/// or in the nodes that the GCS reported.
#[derive(PartialEq, Eq, Debug, Clone, Copy)]
pub enum NodeOrigin {
    Local(usize),
    Reported(usize),
}

/// Whether `node` meets `selector`.
pub open spec fn selector_admits(selector: NodeSelector, node: NodeRecord) -> bool {
    match selector {
        NodeSelector::NodeId(id) => node.node_id@ == id@,
        NodeSelector::NodeName(name) => node.node_name@ == name@,
        NodeSelector::NodeIpAddress(address) => node.node_manager_address@ == address@,
        NodeSelector::IsHeadNode(is_head) => node.is_head_node == is_head,
        NodeSelector::Unset => true,
    }
}

/// Whether `node` is in the wanted state (where one is asked for) and
/// meets every selector.
pub open spec fn node_passes(
    node: NodeRecord,
    state_filter: Option<i32>,
    selectors: Seq<NodeSelector>,
) -> bool {
    &&& (state_filter matches Some(s) ==> node.state == s)
    &&& forall|j: int| 0 <= j < selectors.len() ==> selector_admits(#[trigger] selectors[j], node)
}

/// Whether one of the local nodes has the object store socket `socket`.
pub open spec fn socket_is_local(local: Seq<NodeRecord>, socket: Seq<char>) -> bool {
    exists|j: int| 0 <= j < local.len() && (#[trigger] local[j]).object_store_socket_name@ == socket
}

/// The first `i` local nodes that pass, in order.
pub open spec fn listed_local(
    local: Seq<NodeRecord>,
    state_filter: Option<i32>,
    selectors: Seq<NodeSelector>,
    i: nat,
) -> Seq<NodeOrigin>
    decreases i,
{
    if i == 0 {
        Seq::empty()
    } else {
        let front = listed_local(local, state_filter, selectors, (i - 1) as nat);
        if node_passes(local[i - 1], state_filter, selectors) {
            front.push(NodeOrigin::Local((i - 1) as usize))
        } else {
            front
        }
    }
}

/// The first `i` reported nodes that pass and whose object store socket is
/// not one of a local node, in order.
pub open spec fn listed_reported(
    reported: Seq<NodeRecord>,
    local: Seq<NodeRecord>,
    state_filter: Option<i32>,
    selectors: Seq<NodeSelector>,
    i: nat,
) -> Seq<NodeOrigin>
    decreases i,
{
    if i == 0 {
        Seq::empty()
    } else {
        let front = listed_reported(reported, local, state_filter, selectors, (i - 1) as nat);
        let node = reported[i - 1];
        if !socket_is_local(local, node.object_store_socket_name@) && node_passes(
            node,
            state_filter,
            selectors,
        ) {
            front.push(NodeOrigin::Reported((i - 1) as usize))
        } else {
            front
        }
    }
}

/// The nodes listed, in order: the local nodes first, then the reported
/// ones that no local node shadows, keeping those that pass the filters.
pub open spec fn listed_nodes_spec(
    reported: Seq<NodeRecord>,
    local: Seq<NodeRecord>,
    state_filter: Option<i32>,
    selectors: Seq<NodeSelector>,
) -> Seq<NodeOrigin> {
    listed_local(local, state_filter, selectors, local.len()) + listed_reported(
        reported,
        local,
        state_filter,
        selectors,
        reported.len(),
    )
}

/// Whether two byte strings are equal.
pub fn bytes_equal(a: &Vec<u8>, b: &Vec<u8>) -> (r: bool)
    ensures
        r == (a@ == b@),
{
    if a.len() != b.len() {
        return false;
    }
    let mut i: usize = 0;
    while i < a.len()
        invariant
            a@.len() == b@.len(),
            i <= a@.len(),
            forall|j: int| 0 <= j < i ==> a@[j] == b@[j],
        decreases a.len() - i,
    {
        if a[i] != b[i] {
            return false;
        }
        i = i + 1;
    }
    assert(a@ =~= b@);
    true
}

/// Whether `node` meets `selector`.
fn admits(selector: &NodeSelector, node: &NodeRecord) -> (b: bool)
    ensures
        b == selector_admits(*selector, *node),
{
    match selector {
        NodeSelector::NodeId(id) => bytes_equal(&node.node_id, id),
        NodeSelector::NodeName(name) => node.node_name == *name,
        NodeSelector::NodeIpAddress(address) => node.node_manager_address == *address,
        NodeSelector::IsHeadNode(is_head) => node.is_head_node == *is_head,
        NodeSelector::Unset => true,
    }
}

/// Whether `node` is in the wanted state and meets every selector.
pub fn passes(node: &NodeRecord, state_filter: Option<i32>, selectors: &Vec<NodeSelector>) -> (b:
    bool)
    ensures
        b == node_passes(*node, state_filter, selectors@),
{
    match state_filter {
        Some(s) => {
            if node.state != s {
                return false;
            }
        },
        None => {},
    }
    let mut j: usize = 0;
    while j < selectors.len()
        invariant
            j <= selectors@.len(),
            state_filter matches Some(s) ==> node.state == s,
            forall|k: int| 0 <= k < j ==> selector_admits(#[trigger] selectors@[k], *node),
        decreases selectors.len() - j,
    {
        if !admits(&selectors[j], node) {
            return false;
        }
        j = j + 1;
    }
    true
}

/// Whether one of the local nodes has the object store socket `socket`.
fn local_socket(local: &Vec<NodeRecord>, socket: &String) -> (b: bool)
    ensures
        b == socket_is_local(local@, socket@),
{
    let mut j: usize = 0;
    while j < local.len()
        invariant
            j <= local@.len(),
            forall|k: int| 0 <= k < j ==> (#[trigger] local@[k]).object_store_socket_name@ != socket@,
        decreases local.len() - j,
    {
        if local[j].object_store_socket_name == *socket {
            return true;
        }
        j = j + 1;
    }
    false
}

/// The nodes to list, in order: the local sessions' nodes first, then the
/// nodes that the GCS reported whose object store socket is not one of a
/// local node; of these, those in the wanted state (where one is asked
/// for) that meet every selector.
pub fn listed_nodes(
    reported: &Vec<NodeRecord>,
    local: &Vec<NodeRecord>,
    state_filter: Option<i32>,
    selectors: &Vec<NodeSelector>,
) -> (r: Vec<NodeOrigin>)
    ensures
        r@ == listed_nodes_spec(reported@, local@, state_filter, selectors@),
{
    let mut out: Vec<NodeOrigin> = Vec::new();
    let mut i: usize = 0;
    while i < local.len()
        invariant
            i <= local@.len(),
            out@ == listed_local(local@, state_filter, selectors@, i as nat),
        decreases local.len() - i,
    {
        if passes(&local[i], state_filter, selectors) {
            out.push(NodeOrigin::Local(i));
        }
        i = i + 1;
    }
    let ghost local_part = out@;
    let mut k: usize = 0;
    assert(out@ =~= local_part + listed_reported(reported@, local@, state_filter, selectors@, 0));
    while k < reported.len()
        invariant
            k <= reported@.len(),
            local_part == listed_local(local@, state_filter, selectors@, local@.len()),
            out@ == local_part + listed_reported(
                reported@,
                local@,
                state_filter,
                selectors@,
                k as nat,
            ),
        decreases reported.len() - k,
    {
        let ghost before = out@;
        if !local_socket(local, &reported[k].object_store_socket_name) && passes(
            &reported[k],
            state_filter,
            selectors,
        ) {
            out.push(NodeOrigin::Reported(k));
            assert(out@ =~= before.push(NodeOrigin::Reported(k)));
        }
        k = k + 1;
    }
    out
}

/// The lowercase hexadecimal digit of `d`, which is below sixteen.
pub open spec fn hex_digit(d: int) -> char {
    if d < 10 {
        ((d + 48) as u32) as char
    } else {
        ((d + 87) as u32) as char
    }
}

/// Lowercase hexadecimal text of bytes, two digits per byte.
pub open spec fn hex_spec(bytes: Seq<u8>) -> Seq<char>
    decreases bytes.len(),
{
    if bytes.len() == 0 {
        Seq::empty()
    } else {
        hex_spec(bytes.drop_last()) + seq![
            hex_digit(bytes.last() as int / 16),
            hex_digit(bytes.last() as int % 16),
        ]
    }
}

/// Lowercase hexadecimal text of bytes, two digits per byte.
pub fn hex_encode(bytes: &Vec<u8>) -> (r: String)
    ensures
        r@ == hex_spec(bytes@),
{
    let digits = "0123456789abcdef";
    proof {
        reveal_strlit("0123456789abcdef");
    }
    let mut r = String::new();
    let mut i: usize = 0;
    assert(bytes@.subrange(0, 0) =~= Seq::<u8>::empty());
    while i < bytes.len()
        invariant
            i <= bytes@.len(),
            digits@ == "0123456789abcdef"@,
            digits@.len() == 16,
            forall|d: int| 0 <= d < 16 ==> #[trigger] digits@[d] == hex_digit(d),
            r@ == hex_spec(bytes@.subrange(0, i as int)),
        decreases bytes.len() - i,
    {
        let b = bytes[i];
        let hi = (b / 16) as usize;
        let lo = (b % 16) as usize;
        let ghost before = r@;
        r.append(digits.substring_char(hi, hi + 1));
        r.append(digits.substring_char(lo, lo + 1));
        proof {
            assert(digits@.subrange(hi as int, hi + 1) =~= seq![hex_digit(hi as int)]);
            assert(digits@.subrange(lo as int, lo + 1) =~= seq![hex_digit(lo as int)]);
            assert(bytes@.subrange(0, i + 1).drop_last() =~= bytes@.subrange(0, i as int));
            assert(r@ =~= hex_spec(bytes@.subrange(0, i + 1)));
        }
        i = i + 1;
    }
    assert(bytes@.subrange(0, bytes.len() as int) =~= bytes@);
    r
}

/// The position of the node that a lookup by hexadecimal ID gives: the
/// first whose ID is written `node_id`, else the first node, else none.
pub fn find_node(nodes: &Vec<NodeRecord>, node_id: &str) -> (r: Option<usize>)
    ensures
        match r {
            Some(i) => {
                &&& i < nodes@.len()
                &&& (hex_spec(nodes@[i as int].node_id@) == node_id@ && forall|j: int|
                    0 <= j < i ==> hex_spec((#[trigger] nodes@[j]).node_id@) != node_id@) || (i == 0
                    && forall|j: int|
                    0 <= j < nodes@.len() ==> hex_spec((#[trigger] nodes@[j]).node_id@) != node_id@)
            },
            None => nodes@.len() == 0,
        },
{
    let wanted = String::from_str(node_id);
    let mut i: usize = 0;
    while i < nodes.len()
        invariant
            i <= nodes@.len(),
            wanted@ == node_id@,
            forall|j: int| 0 <= j < i ==> hex_spec((#[trigger] nodes@[j]).node_id@) != node_id@,
        decreases nodes.len() - i,
    {
        if hex_encode(&nodes[i].node_id) == wanted {
            return Some(i);
        }
        i = i + 1;
    }
    if nodes.len() > 0 {
        Some(0)
    } else {
        None
    }
}

/// The state code of a node that is alive.
pub const ALIVE_STATE: i32 = 0;

/// What a row of the node table shows of a node besides the fields it
/// copies: its ID in hexadecimal, whether it is alive (a node that is not
/// shows no resources), and the reason of its death, `0` and empty text
/// where there is none.
pub struct NodeRow {
    pub node_id_hex: String,
    pub alive: bool,
    pub death_reason: i32,
    pub death_reason_message: String,
}

/// The row of the node table for a node with the given ID, state and
/// death information.
pub fn node_row(node_id: &Vec<u8>, state: i32, death: Option<(i32, String)>) -> (r: NodeRow)
    ensures
        r.node_id_hex@ == hex_spec(node_id@),
        r.alive == (state == ALIVE_STATE),
        r.death_reason == (match death {
            Some(d) => d.0,
            None => 0,
        }),
        r.death_reason_message@ == (match death {
            Some(d) => d.1@,
            None => Seq::<char>::empty(),
        }),
{
    let (death_reason, death_reason_message) = match death {
        Some(d) => d,
        None => (0, String::new()),
    };
    NodeRow {
        node_id_hex: hex_encode(node_id),
        alive: state == ALIVE_STATE,
        death_reason,
        death_reason_message,
    }
}

/// Whether each node of `node_ids` is one of the local sessions' nodes.
pub fn locally_alive(node_ids: &Vec<Vec<u8>>, local_ids: &Vec<Vec<u8>>) -> (r: Vec<bool>)
    ensures
        r@.len() == node_ids@.len(),
        forall|i: int|
            0 <= i < node_ids@.len() ==> #[trigger] r@[i] == exists|j: int|
                0 <= j < local_ids@.len() && (#[trigger] local_ids@[j])@ == node_ids@[i]@,
{
    let mut r: Vec<bool> = Vec::new();
    let mut i: usize = 0;
    while i < node_ids.len()
        invariant
            i <= node_ids@.len(),
            r@.len() == i,
            forall|k: int|
                0 <= k < i ==> #[trigger] r@[k] == exists|j: int|
                    0 <= j < local_ids@.len() && (#[trigger] local_ids@[j])@ == node_ids@[k]@,
        decreases node_ids.len() - i,
    {
        let mut found = false;
        let mut j: usize = 0;
        while j < local_ids.len()
            invariant
                i < node_ids@.len(),
                j <= local_ids@.len(),
                found == exists|l: int|
                    0 <= l < j && (#[trigger] local_ids@[l])@ == node_ids@[i as int]@,
            decreases local_ids.len() - j,
        {
            if bytes_equal(&local_ids[j], &node_ids[i]) {
                found = true;
            }
            j = j + 1;
        }
        r.push(found);
        i = i + 1;
    }
    r
}

/// Which nodes count as alive, given what the GCS answered (`None` where
/// the call failed) and which nodes the local sessions vouch for: where the
/// answer has one flag per node, a node is alive if either says so (a flag
/// without a local one beside it stands as it is); otherwise the local
/// sessions decide alone.
pub open spec fn alive_spec(n: nat, reply: Option<Seq<bool>>, local: Seq<bool>) -> Seq<bool> {
    match reply {
        Some(flags) if flags.len() == n => Seq::new(
            n,
            |i: int|
                if i < local.len() {
                    flags[i] || local[i]
                } else {
                    flags[i]
                },
        ),
        _ => local,
    }
}

/// Which of `n` nodes count as alive, given what the GCS answered (`None`
/// where the call failed) and which nodes the local sessions vouch for.
pub fn alive_nodes(n: usize, reply: Option<Vec<bool>>, local: &Vec<bool>) -> (r: Vec<bool>)
    ensures
        r@ == alive_spec(n as nat, reply.deep_view(), local@),
{
    match reply {
        Some(flags) => {
            if flags.len() == n {
                let mut out: Vec<bool> = Vec::new();
                let mut i: usize = 0;
                while i < n
                    invariant
                        flags@.len() == n,
                        i <= n,
                        out@.len() == i,
                        forall|k: int|
                            0 <= k < i ==> #[trigger] out@[k] == (if k < local@.len() {
                                flags@[k] || local@[k]
                            } else {
                                flags@[k]
                            }),
                    decreases n - i,
                {
                    if i < local.len() {
                        out.push(flags[i] || local[i]);
                    } else {
                        out.push(flags[i]);
                    }
                    i = i + 1;
                }
                assert(out@ =~= alive_spec(n as nat, Some(flags@), local@));
                out
            } else {
                local.clone()
            }
        },
        None => local.clone(),
    }
}

proof fn lemma_listed_local(
    local: Seq<NodeRecord>,
    state_filter: Option<i32>,
    selectors: Seq<NodeSelector>,
    i: nat,
)
    requires
        i <= local.len(),
        local.len() <= usize::MAX,
    ensures
        forall|j: int|
            0 <= j < listed_local(local, state_filter, selectors, i).len() ==> {
                let o = #[trigger] listed_local(local, state_filter, selectors, i)[j];
                &&& o is Local
                &&& (o->Local_0 as int) < i
                &&& node_passes(local[o->Local_0 as int], state_filter, selectors)
            },
    decreases i,
{
    if i > 0 {
        lemma_listed_local(local, state_filter, selectors, (i - 1) as nat);
    }
}

proof fn lemma_listed_reported(
    reported: Seq<NodeRecord>,
    local: Seq<NodeRecord>,
    state_filter: Option<i32>,
    selectors: Seq<NodeSelector>,
    i: nat,
)
    requires
        i <= reported.len(),
        reported.len() <= usize::MAX,
    ensures
        forall|j: int|
            0 <= j < listed_reported(reported, local, state_filter, selectors, i).len() ==> {
                let o = #[trigger] listed_reported(reported, local, state_filter, selectors, i)[j];
                &&& o is Reported
                &&& (o->Reported_0 as int) < i
                &&& node_passes(reported[o->Reported_0 as int], state_filter, selectors)
                &&& !socket_is_local(local, reported[o->Reported_0 as int].object_store_socket_name@)
            },
    decreases i,
{
    if i > 0 {
        lemma_listed_reported(reported, local, state_filter, selectors, (i - 1) as nat);
    }
}

/// Every listed node is in the wanted state and meets every selector; the
/// local sessions' nodes come before the reported ones; and no reported
/// node is listed whose object store socket is one of a local node.
pub proof fn law_listed_nodes_pass_filters(
    reported: Seq<NodeRecord>,
    local: Seq<NodeRecord>,
    state_filter: Option<i32>,
    selectors: Seq<NodeSelector>,
)
    requires
        reported.len() <= usize::MAX,
        local.len() <= usize::MAX,
    ensures
        ({
            let listed = listed_nodes_spec(reported, local, state_filter, selectors);
            &&& forall|j: int|
                0 <= j < listed.len() ==> match #[trigger] listed[j] {
                    NodeOrigin::Local(i) => i < local.len() && node_passes(
                        local[i as int],
                        state_filter,
                        selectors,
                    ),
                    NodeOrigin::Reported(i) => i < reported.len() && node_passes(
                        reported[i as int],
                        state_filter,
                        selectors,
                    ) && !socket_is_local(local, reported[i as int].object_store_socket_name@),
                }
            &&& forall|a: int, b: int|
                0 <= a < b < listed.len() && listed[b] is Local ==> listed[a] is Local
        }),
{
    let l = listed_local(local, state_filter, selectors, local.len());
    let r = listed_reported(reported, local, state_filter, selectors, reported.len());
    lemma_listed_local(local, state_filter, selectors, local.len());
    lemma_listed_reported(reported, local, state_filter, selectors, reported.len());
    let listed = l + r;
    assert forall|j: int| 0 <= j < listed.len() implies match #[trigger] listed[j] {
        NodeOrigin::Local(i) => i < local.len() && node_passes(local[i as int], state_filter, selectors),
        NodeOrigin::Reported(i) => i < reported.len() && node_passes(
            reported[i as int],
            state_filter,
            selectors,
        ) && !socket_is_local(local, reported[i as int].object_store_socket_name@),
    } by {
        if j < l.len() {
            assert(listed[j] == l[j]);
        } else {
            assert(listed[j] == r[j - l.len()]);
        }
    }
    assert forall|a: int, b: int| 0 <= a < b < listed.len() && listed[b] is Local implies listed[a] is Local by {
        if b >= l.len() {
            assert(listed[b] == r[b - l.len()]);
        } else {
            assert(listed[a] == l[a]);
        }
    }
}

proof fn lemma_listed_local_complete(
    local: Seq<NodeRecord>,
    state_filter: Option<i32>,
    selectors: Seq<NodeSelector>,
    i: nat,
)
    requires
        i <= local.len(),
    ensures
        forall|j: int|
            0 <= j < i && node_passes(#[trigger] local[j], state_filter, selectors) ==> listed_local(
                local,
                state_filter,
                selectors,
                i,
            ).contains(NodeOrigin::Local(j as usize)),
    decreases i,
{
    if i > 0 {
        let front = listed_local(local, state_filter, selectors, (i - 1) as nat);
        lemma_listed_local_complete(local, state_filter, selectors, (i - 1) as nat);
        let cur = listed_local(local, state_filter, selectors, i);
        assert forall|j: int|
            0 <= j < i && node_passes(#[trigger] local[j], state_filter, selectors) implies cur.contains(
            NodeOrigin::Local(j as usize),
        ) by {
            if j < i - 1 {
                let w = choose|w: int| 0 <= w < front.len() && front[w] == NodeOrigin::Local(j as usize);
                assert(cur[w] == front[w]);
            } else {
                assert(cur[front.len() as int] == NodeOrigin::Local(j as usize));
            }
        }
    }
}

proof fn lemma_listed_reported_complete(
    reported: Seq<NodeRecord>,
    local: Seq<NodeRecord>,
    state_filter: Option<i32>,
    selectors: Seq<NodeSelector>,
    i: nat,
)
    requires
        i <= reported.len(),
    ensures
        forall|j: int|
            0 <= j < i && node_passes(#[trigger] reported[j], state_filter, selectors) && !socket_is_local(
                local,
                reported[j].object_store_socket_name@,
            ) ==> listed_reported(reported, local, state_filter, selectors, i).contains(
                NodeOrigin::Reported(j as usize),
            ),
    decreases i,
{
    if i > 0 {
        let front = listed_reported(reported, local, state_filter, selectors, (i - 1) as nat);
        lemma_listed_reported_complete(reported, local, state_filter, selectors, (i - 1) as nat);
        let cur = listed_reported(reported, local, state_filter, selectors, i);
        assert forall|j: int|
            0 <= j < i && node_passes(#[trigger] reported[j], state_filter, selectors) && !socket_is_local(
                local,
                reported[j].object_store_socket_name@,
            ) implies cur.contains(NodeOrigin::Reported(j as usize)) by {
            if j < i - 1 {
                let w = choose|w: int| 0 <= w < front.len() && front[w] == NodeOrigin::Reported(j as usize);
                assert(cur[w] == front[w]);
            } else {
                assert(cur[front.len() as int] == NodeOrigin::Reported(j as usize));
            }
        }
    }
}

/// Nothing that should be listed is left out: every local node that is in
/// the wanted state and meets every selector is listed, and so is every such
/// reported node whose object store socket is not one of a local node;
/// sharing a host or anything else with a local node does not hide it.
pub proof fn law_listed_nodes_are_complete(
    reported: Seq<NodeRecord>,
    local: Seq<NodeRecord>,
    state_filter: Option<i32>,
    selectors: Seq<NodeSelector>,
)
    ensures
        forall|i: int|
            0 <= i < local.len() && node_passes(#[trigger] local[i], state_filter, selectors)
                ==> listed_nodes_spec(reported, local, state_filter, selectors).contains(
                NodeOrigin::Local(i as usize),
            ),
        forall|i: int|
            0 <= i < reported.len() && node_passes(#[trigger] reported[i], state_filter, selectors)
                && !socket_is_local(local, reported[i].object_store_socket_name@)
                ==> listed_nodes_spec(reported, local, state_filter, selectors).contains(
                NodeOrigin::Reported(i as usize),
            ),
{
    let l = listed_local(local, state_filter, selectors, local.len());
    let r = listed_reported(reported, local, state_filter, selectors, reported.len());
    lemma_listed_local_complete(local, state_filter, selectors, local.len());
    lemma_listed_reported_complete(reported, local, state_filter, selectors, reported.len());
    let all = l + r;
    assert forall|i: int|
        0 <= i < local.len() && node_passes(#[trigger] local[i], state_filter, selectors) implies all.contains(
        NodeOrigin::Local(i as usize),
    ) by {
        let w = choose|w: int| 0 <= w < l.len() && l[w] == NodeOrigin::Local(i as usize);
        assert(all[w] == l[w]);
    }
    assert forall|i: int|
        0 <= i < reported.len() && node_passes(#[trigger] reported[i], state_filter, selectors)
            && !socket_is_local(local, reported[i].object_store_socket_name@) implies all.contains(
        NodeOrigin::Reported(i as usize),
    ) by {
        let w = choose|w: int| 0 <= w < r.len() && r[w] == NodeOrigin::Reported(i as usize);
        assert(all[l.len() + w] == r[w]);
    }
}

/// Where the GCS answers with one flag per node and the local sessions vouch
/// for each node, a node counts as alive exactly when either says so; where
/// the GCS answer is missing or of another length, exactly the nodes that
/// the local sessions vouch for count as alive.
pub proof fn law_alive_is_either_source(n: nat, reply: Option<Seq<bool>>, local: Seq<bool>)
    requires
        local.len() == n,
    ensures
        alive_spec(n, reply, local).len() == n,
        forall|i: int|
            0 <= i < n ==> (#[trigger] alive_spec(n, reply, local)[i] <==> (local[i] || (reply matches Some(
                f,
            ) && f.len() == n && f[i]))),
{
}

} // verus!
