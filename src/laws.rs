//! Properties of the ticket store and the reconciler, proved from the contracts of their
//! operations.
use vstd::prelude::*;
use crate::changelog::{is_bot, Digest};
use crate::expected::implicated;
use crate::model::{is_open_ish, ChangeLogMsg, IssueStatus, NewIssue, TargetStatus};
use crate::reconcile::{first_report, has_offline_action, lemma_first_report, node_step, ticked, NodeReport, SchedAction};
use crate::store::{Store, StoreError};
use crate::digits::{lemma_spell_value, spell_number};
use crate::topology::{
    blade_size, card_size, first_admitting, group_start, lemma_first_admitting_bounds, node_number,
    number_part, related, spelled_as, NodeType, RegexCluster,
};

verus! {

/// Two tickets in Opening or Open on the same node with the same title are the same ticket.
pub proof fn lemma_open_issue_unique(s: Store, a: int, b: int)
    requires
        s.wf(),
        0 <= a < s.issues@.len(),
        0 <= b < s.issues@.len(),
        is_open_ish(s.issues@[a].status),
        is_open_ish(s.issues@[b].status),
        s.target_name(a) == s.target_name(b),
        s.issues@[a].title@ == s.issues@[b].title@,
    ensures
        a == b,
{
    assert(s.issues@[a].id == a + 1);
    assert(s.issues@[b].id == b + 1);
    let ta = s.issues@[a].target_id - 1;
    let tb = s.issues@[b].target_id - 1;
    if ta != tb {
        assert(s.targets@[ta].name@ != s.targets@[tb].name@);
    }
}

/// In every well-formed store, and so after every operation, at most one ticket on a
/// node with a given title is in Opening or Open.
pub proof fn law_one_open_ticket_per_title(s: Store)
    requires
        s.wf(),
    ensures
        forall|a: int, b: int|
            0 <= a < s.issues@.len() && 0 <= b < s.issues@.len() && is_open_ish(
                #[trigger] s.issues@[a].status,
            ) && is_open_ish(#[trigger] s.issues@[b].status) && s.target_name(a) == s.target_name(b)
                && s.issues@[a].title@ == s.issues@[b].title@ ==> a == b,
{
    assert forall|a: int, b: int|
        0 <= a < s.issues@.len() && 0 <= b < s.issues@.len() && is_open_ish(
            #[trigger] s.issues@[a].status,
        ) && is_open_ish(#[trigger] s.issues@[b].status) && s.target_name(a) == s.target_name(b)
            && s.issues@[a].title@ == s.issues@[b].title@ implies a == b by {
        lemma_open_issue_unique(s, a, b);
    }
}

/// Opening the same ticket twice gives the same ticket id; the second call changes
/// nothing and announces nothing.
pub proof fn law_open_idempotent(
    s0: Store,
    s1: Store,
    s2: Store,
    cluster: RegexCluster,
    ni: NewIssue,
    op1: Seq<char>,
    op2: Seq<char>,
    now1: i64,
    now2: i64,
    r1: Result<(i32, Option<ChangeLogMsg>), StoreError>,
    r2: Result<(i32, Option<ChangeLogMsg>), StoreError>,
)
    requires
        s0.wf(),
        Store::opened(s0, s1, cluster, ni, op1, now1, r1),
        Store::opened(s1, s2, cluster, ni, op2, now2, r2),
        r1 is Ok,
    ensures
        r2 is Ok,
        r2->Ok_0.0 == r1->Ok_0.0,
        r2->Ok_0.1 is None,
        s2 == s1,
{
    let name = ni.target@;
    let title = ni.title@;
    if s0.open_issue_index(name, title) is None {
        let n = s0.issues@.len() as int;
        assert(s1.issues@[n] == s1.issues@.last());
        assert(is_open_ish(s1.issues@[n].status) && s1.target_name(n) == name && s1.issues@[n].title@ == title);
        let c = s1.open_issue_index(name, title).unwrap();
        lemma_open_issue_unique(s1, c, n);
    }
}

/// After one pass, a node that an open ticket with a scope covers is offline or draining
/// at the scheduler, or the pass asked the scheduler to offline it; the store then
/// believes it offline or draining.
pub proof fn law_open_ticket_drains_node(
    pre: Store,
    post: Store,
    cluster: RegexCluster,
    reports: Seq<NodeReport>,
    actions: Seq<SchedAction>,
    events: Seq<ChangeLogMsg>,
    now: i64,
    k: int,
    i: int,
)
    requires
        pre.wf(),
        ticked(pre, post, cluster, reports, actions, events, now),
        0 <= k < post.targets@.len(),
        0 <= i < pre.issues@.len(),
        pre.drains(cluster, i, post.targets@[k].name@),
        first_report(reports, post.targets@[k].name@) is Some,
    ensures
        ({
            let q = first_report(reports, post.targets@[k].name@).unwrap();
            reports[q].status == TargetStatus::Offline || reports[q].status == TargetStatus::Draining
                || has_offline_action(actions, post.targets@[k].name@, reports[q].comment@)
        }),
        post.targets@[k].status == TargetStatus::Offline || post.targets@[k].status
            == TargetStatus::Draining,
{
    let name = post.targets@[k].name@;
    assert(pre.expected_status(cluster, name) == TargetStatus::Offline);
    assert(crate::reconcile::node_status_after_pass(pre, post, cluster, reports, k));
    assert(crate::reconcile::actions_cover(pre, cluster, reports, post.targets@[k].name@, actions));
}

/// A ticket opened and then closed, followed by one pass that hears from the node: the
/// node is believed Online and every ticket on it is Closed. The tickets that were there
/// before are closed or neither on the node nor covering it, and the new ticket's scope
/// covers its own node.
pub proof fn law_round_trip(
    s0: Store,
    s1: Store,
    s2: Store,
    s3: Store,
    cluster: RegexCluster,
    ni: NewIssue,
    operator: Seq<char>,
    now: i64,
    r1: Result<(i32, Option<ChangeLogMsg>), StoreError>,
    closer: Seq<char>,
    comment: Seq<char>,
    r2: Result<Option<ChangeLogMsg>, StoreError>,
    reports: Seq<NodeReport>,
    actions: Seq<SchedAction>,
    events: Seq<ChangeLogMsg>,
    now2: i64,
)
    requires
        s0.wf(),
        forall|j: int|
            0 <= j < s0.issues@.len() ==> (#[trigger] s0.issues@[j]).status == IssueStatus::Closed
                || (s0.target_name(j) != ni.target@ && !implicated(
                cluster,
                s0.issues@[j].to_offline,
                s0.target_name(j),
            ).contains(ni.target@)),
        implicated(cluster, ni.to_offline, ni.target@).contains(ni.target@),
        Store::opened(s0, s1, cluster, ni, operator, now, r1),
        r1 is Ok,
        Store::closed(s1, s2, r1->Ok_0.0, closer, comment, now, r2),
        r2 is Ok,
        ticked(s2, s3, cluster, reports, actions, events, now2),
        first_report(reports, ni.target@) is Some,
    ensures
        exists|k: int|
            0 <= k < s3.targets@.len() && (#[trigger] s3.targets@[k]).name@ == ni.target@
                && s3.targets@[k].status == TargetStatus::Online,
        forall|j: int|
            0 <= j < s3.issues@.len() && s3.target_name(j) == ni.target@ ==> (#[trigger] s3.issues@[j]).status
                == IssueStatus::Closed,
{
    let t = ni.target@;
    let n = s0.issues@.len() as int;
    // the open made a new ticket: nothing open on the node before
    if s0.open_issue_index(t, ni.title@) is Some {
        let c = s0.open_issue_index(t, ni.title@).unwrap();
        assert(is_open_ish(s0.issues@[c].status) && s0.target_name(c) == t);
    }
    assert(r1->Ok_0.0 == n + 1);
    assert(s1.issues@[n] == s1.issues@.last());
    assert(s1.issues@.drop_last() == s0.issues@);
    // target names of the old tickets stay
    assert forall|j: int| 0 <= j < n implies #[trigger] s2.target_name(j) == s0.target_name(j)
        && s2.issues@[j] == s0.issues@[j] by {
        assert(s0.issues@[j].id == j + 1);
        assert(s1.issues@.drop_last()[j] == s1.issues@[j]);
        assert(s1.targets@[s0.issues@[j].target_id - 1] == s0.targets@[s0.issues@[j].target_id - 1]);
    }
    assert(s2.issues@[n].status == IssueStatus::Closing);
    assert(s2.target_name(n) == t);
    assert(s2.issues@[n].to_offline == ni.to_offline);
    // the tickets ask nothing of the node, and a closing one covers it
    assert forall|i: int| 0 <= i < s2.issues@.len() implies !#[trigger] s2.drains(cluster, i, t) by {
        if i < n {
            assert(s2.target_name(i) == s0.target_name(i));
        }
    }
    assert forall|i: int| 0 <= i < s2.issues@.len() implies !#[trigger] s2.marks_down(i, t) by {
        if i < n {
            assert(s2.target_name(i) == s0.target_name(i));
            if s0.issues@[i].status != IssueStatus::Closed {
                assert(implicated(cluster, None, s0.target_name(i)) == seq![s0.target_name(i)]);
                assert(implicated(cluster, None, s0.target_name(i))[0] == s0.target_name(i));
            }
        }
    }
    assert(s2.expected_status(cluster, t) == TargetStatus::Online);
    assert(s2.closing_covers(cluster, n, t));
    assert(s2.has_closing(cluster, t));
    let q = first_report(reports, t).unwrap();
    lemma_first_report(reports, t);
    assert(node_step(s2, cluster, reports, t) matches Some((st, status)) && status == TargetStatus::Online
        && st != crate::reconcile::Step::CloseIssues && st != crate::reconcile::Step::OpenTicket);
    // the node's status
    assert(s2.issues@[n].id == n + 1);
    let k = s2.issues@[n].target_id - 1;
    assert(s3.targets@[k].name@ == t);
    assert(crate::reconcile::node_status_after_pass(s2, s3, cluster, reports, k));
    // the tickets on the node
    assert forall|j: int| 0 <= j < s3.issues@.len() && s3.target_name(j) == t implies (#[trigger] s3.issues@[j]).status
        == IssueStatus::Closed by {
        if j < s2.issues@.len() {
            assert(s2.issues@[j].id == j + 1);
            assert(s3.target_name(j) == s2.target_name(j));
            if j < n {
                assert(s2.target_name(j) == s0.target_name(j));
            }
        } else {
            assert(crate::reconcile::opens_ticket(s2, cluster, reports, s3.target_name(j)));
        }
    }
}

/// A name that every node type spells but numbers outside its range is no node, and
/// opening a ticket on it is refused with nothing changed.
pub proof fn law_outside_range_rejected(
    cluster: RegexCluster,
    pre: Store,
    post: Store,
    ni: NewIssue,
    operator: Seq<char>,
    now: i64,
    r: Result<(i32, Option<ChangeLogMsg>), StoreError>,
)
    requires
        forall|i: int|
            0 <= i < cluster.types().len() && spelled_as(#[trigger] cluster.types()[i], ni.target@)
                ==> node_number(cluster.types()[i], ni.target@) < match cluster.types()[i].first_num {
                Some(f) => f as nat,
                None => 1,
            } || (cluster.types()[i].last_num matches Some(l) && node_number(
                cluster.types()[i],
                ni.target@,
            ) > l),
        Store::opened(pre, post, cluster, ni, operator, now, r),
    ensures
        !cluster.spec_real_node(ni.target@),
        r == Err::<(i32, Option<ChangeLogMsg>), StoreError>(StoreError::NotARealNode),
        post == pre,
{
    crate::topology::lemma_first_admitting_bounds(cluster.types(), ni.target@);
}

/// A node that no ticket keeps out of service and that the scheduler reports up stays
/// Online through a pass, and no ticket is opened on it.
pub proof fn law_released_node_stays_up(
    pre: Store,
    post: Store,
    cluster: RegexCluster,
    reports: Seq<NodeReport>,
    actions: Seq<SchedAction>,
    events: Seq<ChangeLogMsg>,
    now: i64,
    k: int,
)
    requires
        ticked(pre, post, cluster, reports, actions, events, now),
        0 <= k < post.targets@.len(),
        pre.expected_status(cluster, post.targets@[k].name@) == TargetStatus::Online,
        first_report(reports, post.targets@[k].name@) matches Some(q) && reports[q].status
            == TargetStatus::Online,
    ensures
        post.targets@[k].status == TargetStatus::Online,
        forall|j: int|
            pre.issues@.len() <= j < post.issues@.len() ==> post.target_name(j) != post.targets@[k].name@,
{
    assert(crate::reconcile::node_status_after_pass(pre, post, cluster, reports, k));
    assert forall|j: int| pre.issues@.len() <= j < post.issues@.len() implies post.target_name(j)
        != post.targets@[k].name@ by {
        assert(post.issues@[j].status == IssueStatus::Opening);
    }
}

/// An event from an operator other than the reconciler, once recorded, makes the next
/// flush hand out a digest, whatever was dropped before it.
pub proof fn law_recorded_event_reaches_digest(d0: Digest, d1: Digest, msg: ChangeLogMsg)
    requires
        Digest::recorded(d0, d1, msg),
        match msg {
            ChangeLogMsg::Open { operator, .. } => !is_bot(operator@),
            ChangeLogMsg::Close { operator, .. } => !is_bot(operator@),
            _ => true,
        },
    ensures
        d1.operators@.len() > 0,
{
    let op = match msg {
        ChangeLogMsg::Offline { operator, .. } => operator@,
        ChangeLogMsg::Resume { operator, .. } => operator@,
        ChangeLogMsg::Open { operator, .. } => operator@,
        ChangeLogMsg::Close { operator, .. } => operator@,
        ChangeLogMsg::Update { operator, .. } => operator@,
    };
    assert(crate::topology::view_names(d1.operators@).contains(op));
}

/// `target` is written as its node type writes node names: zero-padded to the type's
/// width where it has one, without leading zeros where it has none.
pub open spec fn written_as_layout(nt: NodeType, target: Seq<char>) -> bool {
    spell_number(node_number(nt, target), nt.digits) == number_part(nt.prefix@, target)
}

proof fn lemma_name_number(nt: NodeType, n: nat)
    ensures
        number_part(nt.prefix@, nt.prefix@ + spell_number(n, nt.digits)) == spell_number(n, nt.digits),
        node_number(nt, nt.prefix@ + spell_number(n, nt.digits)) == n,
{
    let name = nt.prefix@ + spell_number(n, nt.digits);
    assert(number_part(nt.prefix@, name) =~= spell_number(n, nt.digits));
    lemma_spell_value(n, nt.digits);
}

proof fn lemma_group_bounds(num: nat, size: nat)
    requires
        size > 1,
        num >= 1,
    ensures
        group_start(num, size) <= num < group_start(num, size) + size,
        group_start(num, size) >= 1,
{
    let x = (num - 1) as int;
    vstd::arithmetic::div_mod::lemma_fundamental_div_mod(x, size as int);
    vstd::arithmetic::div_mod::lemma_mod_pos_bound(x, size as int);
    vstd::arithmetic::div_mod::lemma_div_pos_is_pos(x, size as int);
    assert((x / size as int) * size as int == size as int * (x / size as int)) by (nonlinear_arith);
    assert((x / size as int) * size as int >= 0) by (nonlinear_arith)
        requires
            x / size as int >= 0,
            size > 1,
    ;
}

/// A node written as its layout writes names is in its own group of any size.
proof fn lemma_in_related(nt: NodeType, target: Seq<char>, size: nat)
    requires
        spelled_as(nt, target),
        written_as_layout(nt, target),
    ensures
        related(nt, target, node_number(nt, target), size).contains(target),
{
    let num = node_number(nt, target);
    let g = related(nt, target, num, size);
    if size > 1 && num >= 1 {
        lemma_group_bounds(num, size);
        let i = num - group_start(num, size);
        assert(target =~= nt.prefix@ + number_part(nt.prefix@, target));
        assert(g[i] == target);
    } else {
        assert(g[0] == target);
    }
}

/// A node is among its own siblings and its own cousins, when its name is written as
/// its layout writes names.
pub proof fn law_node_in_own_groups(c: RegexCluster, target: Seq<char>)
    requires
        c.spec_real_node(target),
        written_as_layout(c.types()[first_admitting(c.types(), target).unwrap()], target),
    ensures
        c.spec_siblings(target).contains(target),
        c.spec_cousins(target).contains(target),
{
    lemma_first_admitting_bounds(c.types(), target);
    let nt = c.types()[first_admitting(c.types(), target).unwrap()];
    lemma_in_related(nt, target, card_size(nt));
    lemma_in_related(nt, target, blade_size(nt));
}

/// The siblings of a node are among its cousins, when a blade holds whole cards and the
/// node's name is written as its layout writes names.
pub proof fn law_siblings_within_cousins(c: RegexCluster, target: Seq<char>)
    requires
        c.spec_real_node(target),
        ({
            let nt = c.types()[first_admitting(c.types(), target).unwrap()];
            &&& written_as_layout(nt, target)
            &&& card_size(nt) <= 1 || (blade_size(nt) >= card_size(nt) && blade_size(nt) % card_size(nt) == 0)
        }),
    ensures
        forall|x: Seq<char>| #[trigger] c.spec_siblings(target).contains(x) ==> c.spec_cousins(target).contains(x),
{
    lemma_first_admitting_bounds(c.types(), target);
    let nt = c.types()[first_admitting(c.types(), target).unwrap()];
    let num = node_number(nt, target);
    let cs = card_size(nt);
    let bs = blade_size(nt);
    lemma_in_related(nt, target, bs);
    if cs > 1 && num >= 1 {
        let x = (num - 1) as int;
        let m = (bs / cs) as int;
        vstd::arithmetic::div_mod::lemma_fundamental_div_mod(bs as int, cs as int);
        assert(bs as int == cs * m);
        assert(m >= 1) by (nonlinear_arith)
            requires
                bs as int == cs * m,
                bs >= cs,
                cs > 1,
        ;
        let y = x / cs as int;
        let z = y / m;
        vstd::arithmetic::div_mod::lemma_div_denominator(x, cs as int, m);
        assert(x / (bs as int) == z);
        vstd::arithmetic::div_mod::lemma_fundamental_div_mod(y, m);
        vstd::arithmetic::div_mod::lemma_mod_pos_bound(y, m);
        vstd::arithmetic::div_mod::lemma_div_pos_is_pos(x, cs as int);
        let sib_start = group_start(num, cs) as int;
        let cou_start = group_start(num, bs) as int;
        assert(sib_start == y * cs + 1);
        assert(cou_start == z * bs + 1);
        assert(cou_start <= sib_start && sib_start + cs <= cou_start + bs) by (nonlinear_arith)
            requires
                y == m * z + y % m,
                0 <= y % m < m,
                bs as int == cs * m,
                cs > 1,
                sib_start == y * cs + 1,
                cou_start == z * bs + 1,
        ;
        assert forall|w: Seq<char>| #[trigger] c.spec_siblings(target).contains(w) implies c.spec_cousins(target).contains(w) by {
            let sib = c.spec_siblings(target);
            let i = choose|i: int| 0 <= i < sib.len() && sib[i] == w;
            let j = sib_start + i - cou_start;
            assert(c.spec_cousins(target)[j] == w);
        }
    } else {
        assert forall|w: Seq<char>| #[trigger] c.spec_siblings(target).contains(w) implies c.spec_cousins(target).contains(w) by {
            let sib = c.spec_siblings(target);
            let i = choose|i: int| 0 <= i < sib.len() && sib[i] == w;
            assert(w == target);
        }
    }
}

/// The blades of one node type part its nodes: two nodes of the type have the same
/// cousins, or cousins with no name in common.
pub proof fn law_blades_partition(c: RegexCluster, a: Seq<char>, b: Seq<char>)
    requires
        c.spec_real_node(a),
        c.spec_real_node(b),
        first_admitting(c.types(), a) == first_admitting(c.types(), b),
    ensures
        c.spec_cousins(a) == c.spec_cousins(b) || forall|x: Seq<char>|
            !(#[trigger] c.spec_cousins(a).contains(x) && c.spec_cousins(b).contains(x)),
{
    lemma_first_admitting_bounds(c.types(), a);
    lemma_first_admitting_bounds(c.types(), b);
    let nt = c.types()[first_admitting(c.types(), a).unwrap()];
    let size = blade_size(nt);
    let na = node_number(nt, a);
    let nb = node_number(nt, b);
    let ga = c.spec_cousins(a);
    let gb = c.spec_cousins(b);
    if size > 1 && na >= 1 && nb >= 1 {
        let sa = group_start(na, size);
        let sb = group_start(nb, size);
        if sa == sb {
            assert(ga =~= gb);
        } else {
            assert forall|x: Seq<char>| !(#[trigger] ga.contains(x) && gb.contains(x)) by {
                if ga.contains(x) && gb.contains(x) {
                    let i = choose|i: int| 0 <= i < ga.len() && ga[i] == x;
                    let j = choose|j: int| 0 <= j < gb.len() && gb[j] == x;
                    lemma_name_number(nt, (sa + i) as nat);
                    lemma_name_number(nt, (sb + j) as nat);
                    let qa = ((na - 1) as int) / (size as int);
                    let qb = ((nb - 1) as int) / (size as int);
                    assert(sa + i == sb + j);
                    assert(false) by (nonlinear_arith)
                        requires
                            sa == qa * size + 1,
                            sb == qb * size + 1,
                            sa != sb,
                            sa + i == sb + j,
                            0 <= i < size,
                            0 <= j < size,
                    ;
                }
            }
        }
    } else if size > 1 && na >= 1 {
        assert forall|x: Seq<char>| !(#[trigger] ga.contains(x) && gb.contains(x)) by {
            if ga.contains(x) && gb.contains(x) {
                let i = choose|i: int| 0 <= i < ga.len() && ga[i] == x;
                let j = choose|j: int| 0 <= j < gb.len() && gb[j] == x;
                assert(x == b);
                lemma_group_bounds(na, size);
                lemma_name_number(nt, (group_start(na, size) + i) as nat);
            }
        }
    } else if size > 1 && nb >= 1 {
        assert forall|x: Seq<char>| !(#[trigger] ga.contains(x) && gb.contains(x)) by {
            if ga.contains(x) && gb.contains(x) {
                let i = choose|i: int| 0 <= i < ga.len() && ga[i] == x;
                let j = choose|j: int| 0 <= j < gb.len() && gb[j] == x;
                assert(x == a);
                lemma_group_bounds(nb, size);
                lemma_name_number(nt, (group_start(nb, size) + j) as nat);
            }
        }
    } else {
        if a != b {
            assert forall|x: Seq<char>| !(#[trigger] ga.contains(x) && gb.contains(x)) by {
                if ga.contains(x) && gb.contains(x) {
                    let i = choose|i: int| 0 <= i < ga.len() && ga[i] == x;
                    let j = choose|j: int| 0 <= j < gb.len() && gb[j] == x;
                }
            }
        }
    }
}

} // verus!
