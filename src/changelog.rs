//! The activity digest: events gathered over a while and told to the operators at once.
//! Each accumulator is a sorted set, and the digest shows each in its `Debug` form.
use vstd::prelude::*;
use crate::digits::{decimal, push_decimal};
use crate::model::ChangeLogMsg;
use crate::text::{join, lemma_text_lt_trans, lemma_text_total, push_joined, text_is, text_less, text_lt};
use crate::topology::view_names;

verus! {

/// The tickets of one title in a digest section.
pub struct TitleGroup {
    pub title: String,
    pub issues: Vec<i32>,
}

/// The six accumulators of the digest.
pub struct Digest {
    pub operators: Vec<String>,
    pub open_issues: Vec<i32>,
    pub update_issues: Vec<TitleGroup>,
    pub close_issues: Vec<TitleGroup>,
    pub offline_nodes: Vec<String>,
    pub resume_nodes: Vec<String>,
}

/// The `Debug` form of a text: in double quotes, with special characters escaped.
pub uninterp spec fn debug_text(s: Seq<char>) -> Seq<char>;

/// Relies on `<str as Debug>::fmt`, whose output depends on the text alone.
#[verifier::external_body]
fn debug_str(s: &str) -> (r: String)
    ensures
        r@ == debug_text(s@),
{
    format!("{:?}", s)
}

pub open spec fn names_sorted(v: Seq<String>) -> bool {
    forall|a: int, b: int| 0 <= a < b < v.len() ==> text_lt((#[trigger] v[a])@, (#[trigger] v[b])@)
}

pub open spec fn ids_sorted(v: Seq<i32>) -> bool {
    forall|a: int, b: int| 0 <= a < b < v.len() ==> #[trigger] v[a] < #[trigger] v[b]
}

pub open spec fn groups_sorted(g: Seq<TitleGroup>) -> bool {
    &&& forall|a: int, b: int| 0 <= a < b < g.len() ==> text_lt((#[trigger] g[a]).title@, (#[trigger] g[b]).title@)
    &&& forall|k: int| 0 <= k < g.len() ==> ids_sorted((#[trigger] g[k]).issues@) && g[k].issues@.len() > 0
}

/// Ticket `i` is listed under title `t`.
pub open spec fn has_pair(g: Seq<TitleGroup>, t: Seq<char>, i: i32) -> bool {
    exists|k: int| 0 <= k < g.len() && (#[trigger] g[k]).title@ == t && g[k].issues@.contains(i)
}

/// `new` holds what `old` holds and `x`, and nothing else.
pub open spec fn adds<A>(old: Seq<A>, new: Seq<A>, x: A) -> bool {
    forall|m: A| #[trigger] new.contains(m) <==> old.contains(m) || m == x
}

pub open spec fn adds_pair(old: Seq<TitleGroup>, new: Seq<TitleGroup>, t: Seq<char>, i: i32) -> bool {
    forall|u: Seq<char>, j: i32| #[trigger] has_pair(new, u, j) <==> has_pair(old, u, j) || (u == t && j == i)
}

pub open spec fn same_pairs(a: Seq<TitleGroup>, b: Seq<TitleGroup>) -> bool {
    forall|u: Seq<char>, j: i32| #[trigger] has_pair(a, u, j) <==> has_pair(b, u, j)
}

/// The operator name the reconciler acts under.
pub open spec fn is_bot(op: Seq<char>) -> bool {
    op == "ctt"@
}

pub open spec fn int_text(i: int) -> Seq<char> {
    if i >= 0 {
        decimal(i as nat)
    } else {
        "-"@ + decimal((-i) as nat)
    }
}

/// A set in `Debug` form: its items in braces, separated by a comma and a space.
pub open spec fn set_text(items: Seq<Seq<char>>) -> Seq<char> {
    "{"@ + join(items) + "}"@
}

pub open spec fn names_text(v: Seq<String>) -> Seq<char> {
    set_text(view_names(v).map_values(|s: Seq<char>| debug_text(s)))
}

pub open spec fn ids_text(v: Seq<i32>) -> Seq<char> {
    set_text(v.map_values(|i: i32| int_text(i as int)))
}

pub open spec fn group_text(g: TitleGroup) -> Seq<char> {
    debug_text(g.title@) + ": "@ + ids_text(g.issues@)
}

/// A map from titles to sets of tickets in `Debug` form.
pub open spec fn groups_text(g: Seq<TitleGroup>) -> Seq<char> {
    set_text(g.map_values(|x: TitleGroup| group_text(x)))
}

pub open spec fn section(label: Seq<char>, nonempty: bool, body: Seq<char>) -> Seq<char> {
    if nonempty {
        label + body
    } else {
        Seq::empty()
    }
}

impl Digest {
    pub open spec fn wf(&self) -> bool {
        &&& names_sorted(self.operators@)
        &&& ids_sorted(self.open_issues@)
        &&& groups_sorted(self.update_issues@)
        &&& groups_sorted(self.close_issues@)
        &&& names_sorted(self.offline_nodes@)
        &&& names_sorted(self.resume_nodes@)
    }

    pub open spec fn is_empty(&self) -> bool {
        &&& self.operators@.len() == 0
        &&& self.open_issues@.len() == 0
        &&& self.update_issues@.len() == 0
        &&& self.close_issues@.len() == 0
        &&& self.offline_nodes@.len() == 0
        &&& self.resume_nodes@.len() == 0
    }

    /// The digest text: the operators, then the sections that are not empty, in the
    /// order opened, updated, closed, offlined, resumed; each set in its `Debug` form.
    pub open spec fn text(&self) -> Seq<char> {
        names_text(self.operators@)
            + section("\nOpened: "@, self.open_issues@.len() > 0, ids_text(self.open_issues@))
            + section("\nUpdated: "@, self.update_issues@.len() > 0, groups_text(self.update_issues@))
            + section("\nClosed: "@, self.close_issues@.len() > 0, groups_text(self.close_issues@))
            + section("\nOfflined: "@, self.offline_nodes@.len() > 0, names_text(self.offline_nodes@))
            + section("\nResumed: "@, self.resume_nodes@.len() > 0, names_text(self.resume_nodes@))
    }

    /// What recording `msg` does to the digest `old`.
    pub open spec fn recorded(old: Digest, new: Digest, msg: ChangeLogMsg) -> bool {
        &&& new.wf()
        &&& match msg {
            ChangeLogMsg::Offline { target, operator } => {
                &&& adds(view_names(old.offline_nodes@), view_names(new.offline_nodes@), target@)
                &&& adds(view_names(old.operators@), view_names(new.operators@), operator@)
                &&& new.open_issues@ == old.open_issues@
                &&& same_pairs(new.update_issues@, old.update_issues@)
                &&& same_pairs(new.close_issues@, old.close_issues@)
                &&& view_names(new.resume_nodes@) == view_names(old.resume_nodes@)
            },
            ChangeLogMsg::Resume { target, operator } => {
                &&& adds(view_names(old.resume_nodes@), view_names(new.resume_nodes@), target@)
                &&& adds(view_names(old.operators@), view_names(new.operators@), operator@)
                &&& new.open_issues@ == old.open_issues@
                &&& same_pairs(new.update_issues@, old.update_issues@)
                &&& same_pairs(new.close_issues@, old.close_issues@)
                &&& view_names(new.offline_nodes@) == view_names(old.offline_nodes@)
            },
            ChangeLogMsg::Open { issue, title, operator } => if is_bot(operator@) {
                &&& view_names(new.operators@) == view_names(old.operators@)
                &&& new.open_issues@ == old.open_issues@
                &&& same_pairs(new.update_issues@, old.update_issues@)
                &&& same_pairs(new.close_issues@, old.close_issues@)
                &&& view_names(new.offline_nodes@) == view_names(old.offline_nodes@)
                &&& view_names(new.resume_nodes@) == view_names(old.resume_nodes@)
            } else {
                &&& adds(old.open_issues@, new.open_issues@, issue)
                &&& adds(view_names(old.operators@), view_names(new.operators@), operator@)
                &&& same_pairs(new.update_issues@, old.update_issues@)
                &&& same_pairs(new.close_issues@, old.close_issues@)
                &&& view_names(new.offline_nodes@) == view_names(old.offline_nodes@)
                &&& view_names(new.resume_nodes@) == view_names(old.resume_nodes@)
            },
            ChangeLogMsg::Close { issue, title, comment, operator } => if is_bot(operator@) {
                &&& view_names(new.operators@) == view_names(old.operators@)
                &&& new.open_issues@ == old.open_issues@
                &&& same_pairs(new.update_issues@, old.update_issues@)
                &&& same_pairs(new.close_issues@, old.close_issues@)
                &&& view_names(new.offline_nodes@) == view_names(old.offline_nodes@)
                &&& view_names(new.resume_nodes@) == view_names(old.resume_nodes@)
            } else {
                &&& adds_pair(old.close_issues@, new.close_issues@, title@, issue)
                &&& adds(view_names(old.operators@), view_names(new.operators@), operator@)
                &&& new.open_issues@ == old.open_issues@
                &&& same_pairs(new.update_issues@, old.update_issues@)
                &&& view_names(new.offline_nodes@) == view_names(old.offline_nodes@)
                &&& view_names(new.resume_nodes@) == view_names(old.resume_nodes@)
            },
            ChangeLogMsg::Update { issue, title, operator } => {
                &&& adds_pair(old.update_issues@, new.update_issues@, title@, issue)
                &&& adds(view_names(old.operators@), view_names(new.operators@), operator@)
                &&& new.open_issues@ == old.open_issues@
                &&& same_pairs(new.close_issues@, old.close_issues@)
                &&& view_names(new.offline_nodes@) == view_names(old.offline_nodes@)
                &&& view_names(new.resume_nodes@) == view_names(old.resume_nodes@)
            },
        }
    }
}

/// Adds `x` to the sorted set `v`.
fn add_name(v: &mut Vec<String>, x: String)
    requires
        names_sorted(old(v)@),
    ensures
        names_sorted(final(v)@),
        adds(view_names(old(v)@), view_names(final(v)@), x@),
{
    let mut p: usize = 0;
    while p < v.len() && text_less(v[p].as_str(), x.as_str())
        invariant
            p <= v@.len(),
            names_sorted(v@),
            forall|a: int| 0 <= a < p ==> text_lt((#[trigger] v@[a])@, x@),
        decreases v@.len() - p,
    {
        p = p + 1;
    }
    if p < v.len() && v[p] == x {
        proof {
            assert forall|m: Seq<char>| #[trigger] view_names(v@).contains(m) <==> view_names(v@).contains(m) || m == x@ by {
                if m == x@ {
                    assert(view_names(v@)[p as int] == m);
                }
            }
        }
        return;
    }
    let ghost old_v = v@;
    proof {
        if p < old_v.len() {
            lemma_text_total(old_v[p as int]@, x@);
        }
    }
    v.insert(p, x);
    proof {
        assert forall|a: int, b: int| 0 <= a < b < v@.len() implies text_lt((#[trigger] v@[a])@, (#[trigger] v@[b])@) by {
            if a < p && b == p {
            } else if a < p && b > p {
                assert(v@[b] == old_v[b - 1]);
            } else if a == p && b > p {
                assert(v@[b] == old_v[b - 1]);
                if b - 1 > p {
                    lemma_text_lt_trans(x@, old_v[p as int]@, old_v[b - 1]@, 0);
                }
            } else if a > p {
                assert(v@[a] == old_v[a - 1]);
                assert(v@[b] == old_v[b - 1]);
            }
        }
        assert forall|m: Seq<char>| #[trigger] view_names(v@).contains(m) <==> view_names(old_v).contains(m) || m == x@ by {
            if view_names(old_v).contains(m) {
                let i = choose|i: int| 0 <= i < view_names(old_v).len() && view_names(old_v)[i] == m;
                if i < p {
                    assert(view_names(v@)[i] == m);
                } else {
                    assert(view_names(v@)[i + 1] == m);
                }
            }
            if m == x@ {
                assert(view_names(v@)[p as int] == m);
            }
            if view_names(v@).contains(m) && m != x@ {
                let i = choose|i: int| 0 <= i < view_names(v@).len() && view_names(v@)[i] == m;
                if i < p {
                    assert(view_names(old_v)[i] == m);
                } else if i > p {
                    assert(view_names(old_v)[i - 1] == m);
                }
            }
        }
    }
}

/// Adds `x` to the sorted set `v`.
fn add_id(v: &mut Vec<i32>, x: i32)
    requires
        ids_sorted(old(v)@),
    ensures
        ids_sorted(final(v)@),
        adds(old(v)@, final(v)@, x),
        final(v)@.len() > 0,
{
    let mut p: usize = 0;
    while p < v.len() && v[p] < x
        invariant
            p <= v@.len(),
            ids_sorted(v@),
            forall|a: int| 0 <= a < p ==> #[trigger] v@[a] < x,
        decreases v@.len() - p,
    {
        p = p + 1;
    }
    if p < v.len() && v[p] == x {
        assert(v@[p as int] == x);
        return;
    }
    let ghost old_v = v@;
    v.insert(p, x);
    proof {
        assert forall|a: int, b: int| 0 <= a < b < v@.len() implies #[trigger] v@[a] < #[trigger] v@[b] by {
            if b > p {
                assert(v@[b] == old_v[b - 1]);
            }
            if a > p {
                assert(v@[a] == old_v[a - 1]);
            }
            if a == p && b > p && b - 1 > p {
                assert(old_v[p as int] < old_v[b - 1]);
            }
        }
        assert forall|m: i32| #[trigger] v@.contains(m) <==> old_v.contains(m) || m == x by {
            if old_v.contains(m) {
                let i = choose|i: int| 0 <= i < old_v.len() && old_v[i] == m;
                if i < p {
                    assert(v@[i] == m);
                } else {
                    assert(v@[i + 1] == m);
                }
            }
            if m == x {
                assert(v@[p as int] == m);
            }
            if v@.contains(m) && m != x {
                let i = choose|i: int| 0 <= i < v@.len() && v@[i] == m;
                if i < p {
                    assert(old_v[i] == m);
                } else if i > p {
                    assert(old_v[i - 1] == m);
                }
            }
        }
    }
}

/// Lists ticket `issue` under `title` in the sorted map `g`.
fn add_pair(g: &mut Vec<TitleGroup>, title: String, issue: i32)
    requires
        groups_sorted(old(g)@),
    ensures
        groups_sorted(final(g)@),
        adds_pair(old(g)@, final(g)@, title@, issue),
{
    let mut p: usize = 0;
    while p < g.len() && text_less(g[p].title.as_str(), title.as_str())
        invariant
            p <= g@.len(),
            groups_sorted(g@),
            forall|a: int| 0 <= a < p ==> text_lt((#[trigger] g@[a]).title@, title@),
        decreases g@.len() - p,
    {
        p = p + 1;
    }
    let ghost old_g = g@;
    if p < g.len() && g[p].title == title {
        let mut grp = g.remove(p);
        add_id(&mut grp.issues, issue);
        g.insert(p, grp);
        proof {
            assert forall|a: int| 0 <= a < g@.len() && a != p implies #[trigger] g@[a] == old_g[a] by {}
            assert forall|a: int, b: int| 0 <= a < b < g@.len() implies text_lt((#[trigger] g@[a]).title@, (#[trigger] g@[b]).title@) by {
            }
            assert forall|u: Seq<char>, j: i32| #[trigger] has_pair(g@, u, j) <==> has_pair(old_g, u, j) || (u == title@ && j == issue) by {
                if has_pair(old_g, u, j) {
                    let k = choose|k: int| 0 <= k < old_g.len() && (#[trigger] old_g[k]).title@ == u && old_g[k].issues@.contains(j);
                    assert(g@[k].title@ == u);
                    if k == p {
                        assert(g@[k].issues@.contains(j));
                    }
                }
                if u == title@ && j == issue {
                    assert(g@[p as int].title@ == u && g@[p as int].issues@.contains(j));
                }
                if has_pair(g@, u, j) && !(u == title@ && j == issue) {
                    let k = choose|k: int| 0 <= k < g@.len() && (#[trigger] g@[k]).title@ == u && g@[k].issues@.contains(j);
                    assert(old_g[k].title@ == u);
                    if k == p {
                        assert(old_g[k].issues@.contains(j));
                    }
                }
            }
        }
        return;
    }
    proof {
        if p < old_g.len() {
            lemma_text_total(old_g[p as int].title@, title@);
        }
    }
    let mut ids: Vec<i32> = Vec::new();
    ids.push(issue);
    assert(ids@.contains(issue)) by {
        assert(ids@[0] == issue);
    }
    g.insert(p, TitleGroup { title, issues: ids });
    proof {
        assert forall|a: int, b: int| 0 <= a < b < g@.len() implies text_lt((#[trigger] g@[a]).title@, (#[trigger] g@[b]).title@) by {
            if a < p && b == p {
            } else if a < p && b > p {
                assert(g@[b] == old_g[b - 1]);
            } else if a == p && b > p {
                assert(g@[b] == old_g[b - 1]);
                if b - 1 > p {
                    lemma_text_lt_trans(g@[p as int].title@, old_g[p as int].title@, old_g[b - 1].title@, 0);
                }
            } else if a > p {
                assert(g@[a] == old_g[a - 1]);
                assert(g@[b] == old_g[b - 1]);
            }
        }
        assert forall|k: int| 0 <= k < g@.len() implies ids_sorted((#[trigger] g@[k]).issues@) && g@[k].issues@.len() > 0 by {
            if k < p {
                assert(g@[k] == old_g[k]);
            } else if k > p {
                assert(g@[k] == old_g[k - 1]);
            }
        }
        assert forall|u: Seq<char>, j: i32| #[trigger] has_pair(g@, u, j) <==> has_pair(old_g, u, j) || (u == g@[p as int].title@ && j == issue) by {
            if has_pair(old_g, u, j) {
                let k = choose|k: int| 0 <= k < old_g.len() && (#[trigger] old_g[k]).title@ == u && old_g[k].issues@.contains(j);
                if k < p {
                    assert(g@[k] == old_g[k]);
                } else {
                    assert(g@[k + 1] == old_g[k]);
                }
            }
            if u == g@[p as int].title@ && j == issue {
                assert(g@[p as int].issues@.contains(j));
            }
            if has_pair(g@, u, j) && !(u == g@[p as int].title@ && j == issue) {
                let k = choose|k: int| 0 <= k < g@.len() && (#[trigger] g@[k]).title@ == u && g@[k].issues@.contains(j);
                if k < p {
                    assert(old_g[k] == g@[k]);
                } else if k > p {
                    assert(old_g[k - 1] == g@[k]);
                } else {
                    assert(g@[p as int].issues@ == seq![issue]);
                    assert(g@[p as int].issues@[0] == issue);
                }
            }
        }
    }
}

fn push_int(out: &mut String, i: i32)
    ensures
        final(out)@ == old(out)@ + int_text(i as int),
{
    if i >= 0 {
        push_decimal(out, i as u64);
    } else {
        out.append("-");
        proof {
            reveal_strlit("-");
        }
        let m: i64 = -(i as i64);
        push_decimal(out, m as u64);
        assert(out@ =~= old(out)@ + int_text(i as int));
    }
}

fn push_set(out: &mut String, items: &Vec<String>)
    ensures
        final(out)@ == old(out)@ + set_text(view_names(items@)),
{
    out.append("{");
    push_joined(out, items);
    out.append("}");
    assert(out@ =~= old(out)@ + set_text(view_names(items@)));
}

fn names_string(v: &Vec<String>) -> (r: String)
    ensures
        r@ == names_text(v@),
{
    let mut items: Vec<String> = Vec::new();
    let mut k: usize = 0;
    while k < v.len()
        invariant
            k <= v@.len(),
            view_names(items@) =~= view_names(v@.subrange(0, k as int)).map_values(|s: Seq<char>| debug_text(s)),
        decreases v@.len() - k,
    {
        let d = debug_str(v[k].as_str());
        let ghost prev = items@;
        items.push(d);
        proof {
            assert(v@.subrange(0, k + 1) =~= v@.subrange(0, k as int).push(v@[k as int]));
            assert(view_names(items@) =~= view_names(prev).push(d@));
        }
        k = k + 1;
    }
    assert(v@.subrange(0, k as int) =~= v@);
    let mut out = String::new();
    push_set(&mut out, &items);
    assert(out@ =~= names_text(v@));
    out
}

fn id_strings(v: &Vec<i32>) -> (r: Vec<String>)
    ensures
        view_names(r@) == v@.map_values(|i: i32| int_text(i as int)),
{
    let mut r: Vec<String> = Vec::new();
    let mut k: usize = 0;
    while k < v.len()
        invariant
            k <= v@.len(),
            view_names(r@) =~= v@.subrange(0, k as int).map_values(|i: i32| int_text(i as int)),
        decreases v@.len() - k,
    {
        let mut s = String::new();
        push_int(&mut s, v[k]);
        let ghost prev = r@;
        r.push(s);
        proof {
            assert(v@.subrange(0, k + 1) =~= v@.subrange(0, k as int).push(v@[k as int]));
            assert(view_names(r@) =~= view_names(prev).push(s@));
        }
        k = k + 1;
    }
    assert(v@.subrange(0, k as int) =~= v@);
    r
}

fn ids_string(v: &Vec<i32>) -> (r: String)
    ensures
        r@ == ids_text(v@),
{
    let items = id_strings(v);
    let mut out = String::new();
    push_set(&mut out, &items);
    assert(out@ =~= ids_text(v@));
    out
}

fn groups_string(g: &Vec<TitleGroup>) -> (r: String)
    ensures
        r@ == groups_text(g@),
{
    let mut items: Vec<String> = Vec::new();
    let mut k: usize = 0;
    while k < g.len()
        invariant
            k <= g@.len(),
            view_names(items@) =~= g@.subrange(0, k as int).map_values(|x: TitleGroup| group_text(x)),
        decreases g@.len() - k,
    {
        let mut s = debug_str(g[k].title.as_str());
        s.append(": ");
        let ids = ids_string(&g[k].issues);
        s.append(ids.as_str());
        proof {
            reveal_strlit(": ");
        }
        let ghost prev = items@;
        items.push(s);
        proof {
            assert(s@ =~= group_text(g@[k as int]));
            assert(g@.subrange(0, k + 1) =~= g@.subrange(0, k as int).push(g@[k as int]));
            assert(view_names(items@) =~= view_names(prev).push(s@));
        }
        k = k + 1;
    }
    assert(g@.subrange(0, k as int) =~= g@);
    let mut out = String::new();
    push_set(&mut out, &items);
    assert(out@ =~= groups_text(g@));
    out
}

fn push_section(out: &mut String, label: &str, nonempty: bool, body: &String)
    ensures
        final(out)@ == old(out)@ + section(label@, nonempty, body@),
{
    if nonempty {
        out.append(label);
        out.append(body.as_str());
        assert(out@ =~= old(out)@ + section(label@, nonempty, body@));
    } else {
        assert(out@ =~= old(out)@ + section(label@, nonempty, body@));
    }
}

impl Digest {
    pub fn new() -> (r: Self)
        ensures
            r.is_empty(),
            r.wf(),
    {
        Digest {
            operators: Vec::new(),
            open_issues: Vec::new(),
            update_issues: Vec::new(),
            close_issues: Vec::new(),
            offline_nodes: Vec::new(),
            resume_nodes: Vec::new(),
        }
    }

    /// Adds one event. Tickets that the reconciler opens or closes itself are left out;
    /// the nodes it offlines and resumes are kept.
    pub fn record(&mut self, msg: ChangeLogMsg)
        requires
            old(self).wf(),
        ensures
            Self::recorded(*old(self), *final(self), msg),
    {
        proof {
            reveal_strlit("ctt");
        }
        match msg {
            ChangeLogMsg::Offline { target, operator } => {
                add_name(&mut self.offline_nodes, target);
                add_name(&mut self.operators, operator);
            },
            ChangeLogMsg::Resume { target, operator } => {
                add_name(&mut self.resume_nodes, target);
                add_name(&mut self.operators, operator);
            },
            ChangeLogMsg::Open { issue, title, operator } => {
                if !text_is(operator.as_str(), "ctt") {
                    add_id(&mut self.open_issues, issue);
                    add_name(&mut self.operators, operator);
                }
            },
            ChangeLogMsg::Close { issue, title, comment, operator } => {
                if !text_is(operator.as_str(), "ctt") {
                    add_pair(&mut self.close_issues, title, issue);
                    add_name(&mut self.operators, operator);
                }
            },
            ChangeLogMsg::Update { issue, title, operator } => {
                add_pair(&mut self.update_issues, title, issue);
                add_name(&mut self.operators, operator);
            },
        }
    }

    /// The digest of what was gathered, which is then cleared; None while no operator
    /// did anything.
    pub fn flush(&mut self) -> (r: Option<String>)
        ensures
            old(self).operators@.len() == 0 ==> r is None && *final(self) == *old(self),
            old(self).operators@.len() > 0 ==> r is Some && r->Some_0@ == old(self).text()
                && final(self).is_empty() && final(self).wf(),
    {
        if self.operators.len() == 0 {
            return None;
        }
        let mut msg = names_string(&self.operators);
        let ghost m0 = msg@;
        push_section(&mut msg, "\nOpened: ", self.open_issues.len() > 0, &ids_string(&self.open_issues));
        let ghost m1 = msg@;
        push_section(&mut msg, "\nUpdated: ", self.update_issues.len() > 0, &groups_string(&self.update_issues));
        let ghost m2 = msg@;
        push_section(&mut msg, "\nClosed: ", self.close_issues.len() > 0, &groups_string(&self.close_issues));
        let ghost m3 = msg@;
        push_section(&mut msg, "\nOfflined: ", self.offline_nodes.len() > 0, &names_string(&self.offline_nodes));
        let ghost m4 = msg@;
        push_section(&mut msg, "\nResumed: ", self.resume_nodes.len() > 0, &names_string(&self.resume_nodes));
        assert(msg@ =~= old(self).text());
        *self = Self::new();
        Some(msg)
    }
}

} // verus!
